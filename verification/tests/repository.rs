//! Source trees: chunking, ignore rules, the code index, the watcher, the
//! tool server and the command line.

use hips::bench::{percentile, tally, term_postings};
use hips::block_max_wand::SearchStats;
use hips::chunk::{chunk_text, declaration_name, parse_id, snippet_lines};
use hips::cli;
use hips::codeindex::{
    build_segmented, cache_root, default_index_dir, diff_tree, plan_update, BuildOpts, FileRecord,
    Manifest, PhaseTimer,
};
use hips::daemon;
use hips::daemon::{Lease, Step, WatchOpts, WatchState, Watcher};
use hips::doc_comment::split_doc_comment;
use hips::eval::{evaluate, first_relevant, is_relevant, relevance_of};
use hips::grammar;
use hips::ignore::{glob_match, IgnoreSet};
use hips::indexer::{build_index, DocSummary, DocTokens, InputDoc};
use hips::json;
use hips::json::Field;
use hips::lookup::Lookup;
use hips::mcp;
use hips::mcp::{Incoming, LineWork, Method, Mode, Tool, ToolCall};
use hips::paths;
use hips::postings::DEFAULT_BLOCK_SIZE;
use hips::query::{FusionArg, FusionArgs, PqMode, RankMode, SearchOpts};
use hips::reorder::ReorderStrategy;
use hips::repo;
use hips::repo::SourceFile;
use hips::segments::SegmentedIndex;

fn chars(s: &str) -> Vec<char> {
    s.chars().collect()
}

// --- chunks ----------------------------------------------------------------

#[test]
fn chunks_carry_line_ranges() {
    let text = "use std::fs;\n\nfn alpha() {\n    1\n}\n\nfn beta() {\n    2\n}\n";
    let chunks = chunk_text("src/x.rs", text);
    assert_eq!(chunks.len(), 3, "preamble + two fns");
    assert_eq!(chunks[0].start_line, 1);
    assert_eq!(chunks[1].name.as_deref(), Some("alpha"));
    assert_eq!(chunks[1].start_line, 3);
    assert_eq!(chunks[2].name.as_deref(), Some("beta"));
    assert_eq!(chunks[2].id(), "src/x.rs:7-9");
}

#[test]
fn doc_comment_travels_with_its_declaration() {
    let text = "use std::fs;\n\n/// Adds one.\n#[inline]\nfn alpha(x: u32) -> u32 {\n    x + 1\n}\n";
    let chunks = chunk_text("src/x.rs", text);
    assert_eq!(chunks.len(), 2);
    assert!(!chunks[0].body.contains("Adds one"), "doc stuck in preamble");
    let alpha = &chunks[1];
    assert_eq!(alpha.name.as_deref(), Some("alpha"));
    assert!(alpha.body.starts_with("/// Adds one."), "{}", alpha.body);
    assert_eq!(alpha.start_line, 3);
    // And split_doc_comment can now lift it back out.
    let split = split_doc_comment(&alpha.body).unwrap();
    assert_eq!(split.doc, "Adds one.");
    assert!(split.code.contains("fn alpha"));
    assert!(!split.code.contains("#[inline]") || split.code.starts_with("#["));
}

#[test]
fn id_roundtrips() {
    let (path, start, end) = parse_id("a/b/c.rs:10-20").unwrap();
    assert_eq!((path, start, end), ("a/b/c.rs", 10, 20));
}

#[test]
fn malformed_ids_are_refused() {
    for id in ["", "a.rs", "a.rs:10", "a.rs:x-2", "a.rs:1-y", "doc-7"] {
        assert!(parse_id(id).is_none(), "{id}");
    }
    assert_eq!(parse_id("a:b:1-2"), Some(("a:b", 1, 2)));
}

#[test]
fn declaration_forms() {
    let declaration_name = |line: &str| declaration_name(&chars(line));
    assert_eq!(declaration_name("pub async fn run()").as_deref(), Some("run"));
    assert_eq!(
        declaration_name("pub(crate) struct Thing {").as_deref(),
        Some("Thing")
    );
    assert_eq!(declaration_name("    def handle(self):").as_deref(), Some("handle"));
    assert_eq!(
        declaration_name("export default class App {").as_deref(),
        Some("App")
    );
    assert_eq!(declaration_name("// fn commented()"), None);
    assert_eq!(declaration_name("let x = 1;"), None);
}

#[test]
fn splits_doc_comments_from_code() {
    let rust = "/// Compute the retry backoff.\n///\n/// Doubles each attempt.\npub fn backoff(n: u32) -> u64 {\n    1 << n\n}\n";
    let split = split_doc_comment(rust).unwrap();
    assert_eq!(split.doc, "Compute the retry backoff.");
    assert!(split.code.starts_with("pub fn backoff"));
    assert!(!split.code.contains("Doubles"), "comment must be stripped");

    let block = "/** Parse a header value. */\nfunction parse(h) {}\n";
    let split = split_doc_comment(block).unwrap();
    assert_eq!(split.doc, "Parse a header value.");
    assert!(split.code.starts_with("function parse"));

    assert!(split_doc_comment("fn plain() {}\n").is_none());
    assert!(split_doc_comment("#!/bin/sh\necho hi\n").is_none());
    // Comment with no code after it documents nothing.
    assert!(split_doc_comment("/// orphan comment\n").is_none());
}

#[test]
fn chunks_tile_the_file() {
    let mut text = String::new();
    for i in 0..450 {
        if i % 97 == 5 {
            text.push_str(&format!("fn f{i}() {{\n"));
        } else {
            text.push_str(&format!("    line {i};\n"));
        }
    }
    let chunks = chunk_text("big.rs", &text);
    assert!(chunks.len() > 2);
    let mut next = 1;
    for c in &chunks {
        assert!(c.start_line >= next);
        assert!(c.end_line >= c.start_line);
        assert!(c.end_line - c.start_line < 200);
        next = c.end_line + 1;
        assert_eq!(
            parse_id(&c.id()),
            Some(("big.rs", c.start_line, c.end_line))
        );
    }
    assert_eq!(next, 451);
}

#[test]
fn snippets_are_cut_to_lines() {
    let text = "one\ntwo\nthree\nfour\n";
    assert_eq!(snippet_lines(text, 2, 4, 2).as_deref(), Some("two\nthree"));
    assert_eq!(snippet_lines(text, 2, 2, 9).as_deref(), Some("two"));
    assert_eq!(snippet_lines(text, 9, 9, 2), None);
}

#[test]
fn repeated_ids_are_told_apart() {
    let text = "fn alpha() {\n}\n";
    let mut chunks = chunk_text("x.rs", text);
    chunks.extend(chunk_text("x.rs", text));
    let docs = repo::docs_from_chunks(chunks);
    assert_eq!(docs.len(), 2);
    assert_eq!(docs[0].id, "x.rs:1-2");
    assert_ne!(docs[0].id, docs[1].id);
}

#[test]
fn chunks_follow_the_files() {
    // doc_ids are assigned in chunk order, and the embedding sidecar is
    // keyed positionally by doc_id, so this ordering is load-bearing.
    let files: Vec<(String, String)> = (0..12)
        .map(|i| {
            let body = format!("fn a{i}() {{\n}}\n\nfn b{i}() {{\n}}\n");
            (format!("src/f{i:02}.rs"), body)
        })
        .collect();
    let chunk_files = || {
        let mut all = Vec::new();
        for (rel, text) in &files {
            all.extend(chunk_text(rel, text));
        }
        all
    };
    let chunks = chunk_files();
    let mut seen: Vec<&str> = Vec::new();
    for chunk in &chunks {
        if seen.last() != Some(&chunk.path.as_str()) {
            assert!(
                !seen.contains(&chunk.path.as_str()),
                "{} is interleaved, not contiguous",
                chunk.path
            );
            seen.push(&chunk.path);
        }
    }
    let mut sorted = seen.clone();
    sorted.sort();
    assert_eq!(seen, sorted, "files must stay in walk order");
    // And it must be stable across runs.
    let again = chunk_files();
    let ids: Vec<String> = chunks.iter().map(|c| c.id()).collect();
    let ids_again: Vec<String> = again.iter().map(|c| c.id()).collect();
    assert_eq!(ids, ids_again);
}

// --- the tree --------------------------------------------------------------

#[test]
fn globs_and_ignores() {
    assert!(glob_match("*.log", "debug.log"));
    assert!(!glob_match("*.log", "a/debug.log"));
    assert!(glob_match("**/*.log", "a/b/debug.log"));
    assert!(glob_match("build", "build"));

    let mut set = IgnoreSet::default();
    set.push_layer("", "target/\n*.tmp\n!keep.tmp\n");
    assert!(set.is_ignored("target", true));
    assert!(!set.is_ignored("target", false), "dir-only rule");
    assert!(set.is_ignored("src/a.tmp", false));
    assert!(!set.is_ignored("src/keep.tmp", false), "negation wins");
}

#[test]
fn rules_with_a_slash_are_anchored() {
    let mut set = IgnoreSet::default();
    set.push_layer("", "/out\ndeep/\n!/out/keep\n");
    assert!(set.is_ignored("out", false));
    assert!(!set.is_ignored("src/out", false));
    assert!(set.is_ignored("src/deep", true), "a slash at the end anchors nothing");
}

#[test]
fn layers_end_with_their_directory() {
    let mut set = IgnoreSet::default();
    set.push_layer("", "*.tmp\n");
    let depth = set.depth();
    set.push_layer("sub", "gen/only.rs\n# a comment\n\n");
    assert!(set.is_ignored("sub/gen/only.rs", false));
    assert!(!set.is_ignored("sub/deep/gen/only.rs", false), "anchored rule");
    assert!(!set.is_ignored("gen/only.rs", false));
    set.truncate(depth);
    assert!(!set.is_ignored("sub/gen/only.rs", false));
    assert!(set.is_ignored("sub/x.tmp", false));
}

#[test]
fn entries_are_visited_by_kind() {
    let mut set = IgnoreSet::default();
    set.push_layer("", "gen/\n");
    let visit = |name: &str, kind| repo::visit(&set, "src", name, kind);
    assert_eq!(
        visit("a.rs", repo::EntryKind::File),
        ("src/a.rs".to_string(), repo::Visit::Index)
    );
    assert_eq!(visit("a.rs", repo::EntryKind::Symlink).1, repo::Visit::Skip);
    assert_eq!(visit("gen", repo::EntryKind::Dir).1, repo::Visit::Skip);
    assert_eq!(visit("sub", repo::EntryKind::Dir).1, repo::Visit::Descend);
    assert_eq!(visit("a.bin", repo::EntryKind::File).1, repo::Visit::Skip);
    assert_eq!(visit("a.rs", repo::EntryKind::Other).1, repo::Visit::Skip);
    assert!(repo::is_source("main.rs"));
    assert!(!repo::is_source("photo.png"));
    assert!(repo::indexable_len(1));
    assert!(!repo::indexable_len(0));
    assert!(!repo::indexable_len(repo::MAX_FILE_BYTES + 1));
}

fn file(rel: &str, len: u64, mtime_ns: u128) -> SourceFile {
    SourceFile { rel: rel.to_string(), len, mtime_ns }
}

#[test]
fn the_same_tree_has_the_same_fingerprint() {
    let found = || vec![file("b/x.rs", 1, 1), file("a.rs", 2, 2), file("b.rs", 3, 3)];
    let mut other = found();
    other.reverse();
    let sorted = repo::sort_files(found());
    let names: Vec<&str> = sorted.iter().map(|f| f.rel.as_str()).collect();
    assert_eq!(names, vec!["a.rs", "b.rs", "b/x.rs"]);
    assert_eq!(repo::fingerprint(&sorted), repo::fingerprint(&repo::sort_files(other)));
    assert_ne!(repo::fingerprint(&sorted), repo::fingerprint(&found()));
}

#[test]
fn fingerprints_see_every_field() {
    let base = repo::fingerprint(&[file("a", 1, 2), file("b", 3, 4)]);
    assert_eq!(base, repo::fingerprint(&[file("a", 1, 2), file("b", 3, 4)]));
    assert_ne!(base, repo::fingerprint(&[file("a", 1, 2), file("b", 3, 5)]));
    assert_ne!(base, repo::fingerprint(&[file("a", 1, 2), file("b", 4, 4)]));
    assert_ne!(base, repo::fingerprint(&[file("a", 1, 2), file("c", 3, 4)]));
    assert_ne!(base, repo::fingerprint(&[file("a", 1, 2)]));
}

#[test]
fn paths_are_cut_and_joined() {
    assert_eq!(paths::file_name("/a/b").as_deref(), Some("b"));
    assert_eq!(paths::file_name("/a/b/").as_deref(), Some("b"));
    assert_eq!(paths::file_name("/"), None);
    assert_eq!(paths::parent("/a/b").as_deref(), Some("/a"));
    assert_eq!(paths::parent("/a").as_deref(), Some("/"));
    assert_eq!(paths::parent("/"), None);
    assert_eq!(paths::join("/a", "b/c"), "/a/b/c");
    assert_eq!(paths::join("/a/", "b"), "/a/b");
    assert_eq!(paths::sibling("/a/b", ".tmp"), "/a/b.tmp");
}

#[test]
fn lookups_find_the_last() {
    let names: Vec<String> = ["a", "b", "a"].iter().map(|s| s.to_string()).collect();
    let l = Lookup::new(names);
    assert_eq!(l.find("a"), Some(2));
    assert_eq!(l.find("b"), Some(1));
    assert_eq!(l.find("c"), None);
    assert!(l.contains("b"));
}

// --- the code index --------------------------------------------------------

#[test]
fn index_dir_is_stable_and_outside_the_repo() {
    let abs = "/home/user/work/hips";
    let cache = cache_root(None, None, Some("/home/user"), "/tmp");
    let a = default_index_dir(&cache, abs);
    let b = default_index_dir(&cache, abs);
    assert_eq!(a, b);
    assert!(!a.starts_with(abs), "{} is inside the repo", a);
    assert!(a.starts_with(&cache));
    assert_ne!(a, default_index_dir(&cache, "/home/other/work/hips"));
}

#[test]
fn cache_roots_fall_back_in_turn() {
    assert_eq!(cache_root(Some("/asked"), Some("/x"), Some("/h"), "/t"), "/asked");
    assert!(cache_root(None, Some("/x"), Some("/h"), "/t").starts_with("/x/"));
    assert!(cache_root(None, None, Some("/h"), "/t").starts_with("/h/"));
    assert!(cache_root(None, None, None, "/t").starts_with("/t/"));
}

fn record(f: &SourceFile, ids: &[&str]) -> FileRecord {
    FileRecord {
        path: f.rel.clone(),
        len: f.len,
        mtime_ns: f.mtime_ns,
        chunk_ids: ids.iter().map(|s| s.to_string()).collect(),
    }
}

fn words(text: &str) -> Vec<String> {
    text.split(|c: char| !c.is_alphanumeric())
        .filter(|w| !w.is_empty())
        .map(str::to_lowercase)
        .collect()
}

fn tokens(id: &str, body: &str) -> DocTokens {
    DocTokens {
        doc: InputDoc {
            id: id.to_string(),
            title: String::new(),
            body: body.to_string(),
        },
        title_tokens: Vec::new(),
        body_tokens: words(body),
    }
}

#[test]
fn untouched_trees_cost_nothing() {
    let files = vec![file("a.rs", 5, 1), file("b.rs", 6, 2)];
    let records = vec![record(&files[0], &["a.rs:1-2"]), record(&files[1], &["b.rs:1-3"])];
    let diff = diff_tree(&files, &records);
    assert_eq!(diff.kept.len(), 2);
    assert!(diff.changed.is_empty());
    assert!(diff.removed.is_empty());
    let plan = plan_update(&files, &records, &diff, &[], &[]);
    assert!(plan.stale.is_empty());
    assert_eq!(plan.records.len(), 2);
    assert_eq!(plan.records[1].chunk_ids, vec!["b.rs:1-3"]);
}

#[test]
fn edits_additions_and_removals_are_seen() {
    let old = vec![file("a.rs", 5, 1), file("b.rs", 6, 2), file("gone.rs", 1, 1)];
    let records: Vec<FileRecord> = vec![
        record(&old[0], &["a.rs:1-2"]),
        record(&old[1], &["b.rs:1-3", "b.rs:4-9"]),
        record(&old[2], &["gone.rs:1-1"]),
    ];
    let files = vec![file("a.rs", 5, 1), file("b.rs", 6, 3), file("new.rs", 2, 2)];
    let diff = diff_tree(&files, &records);
    assert_eq!(diff.changed, vec![1, 2]);
    assert_eq!(diff.removed, vec![2]);
    let docs = vec![tokens("b.rs:1-3", "one"), tokens("new.rs:1-1", "two")];
    let plan = plan_update(&files, &records, &diff, &docs, &[1, 2]);
    let mut stale = plan.stale.clone();
    stale.sort();
    assert_eq!(stale, vec!["b.rs:4-9", "gone.rs:1-1"]);
    let paths: Vec<&str> = plan.records.iter().map(|r| r.path.as_str()).collect();
    assert_eq!(paths.len(), 3);
    assert!(paths.contains(&"new.rs"));
}

#[test]
fn segmented_builds_follow_the_tree() {
    let mut index = SegmentedIndex::new(false, 2, true);
    let files = vec![file("a.rs", 5, 1), file("b.rs", 6, 2)];
    let diff = diff_tree(&files, &[]);
    let docs = vec![
        tokens("a.rs:1-2", "alpha beta"),
        tokens("b.rs:1-3", "gamma"),
    ];
    assert!(index.room_for(&docs));
    let update = build_segmented(&mut index, &files, &[], &diff, &docs, &[1, 2]);
    assert_eq!(update.outcome.added, 2);
    assert_eq!(update.deleted, 0);
    assert!(!update.merge);
    assert_eq!(index.num_docs_live(), 2);
    assert_eq!(index.term_df("gamma"), 1);

    let files2 = vec![file("a.rs", 5, 1)];
    let diff2 = diff_tree(&files2, &update.records);
    let update2 = build_segmented(&mut index, &files2, &update.records, &diff2, &[], &[]);
    assert_eq!(update2.deleted, 1);
    assert_eq!(index.num_docs_live(), 1);
    assert_eq!(update2.records.len(), 1);
}

#[test]
fn manifests_know_when_they_are_current() {
    let manifest = Manifest {
        root: "/r".to_string(),
        num_docs: 1,
        num_files: 1,
        embedded: false,
        build_ms: 3,
        encoded: 0,
        cached: 0,
        tree_fingerprint: 77,
        files: Vec::new(),
    };
    assert!(manifest.is_up_to_date(77, false));
    assert!(!manifest.is_up_to_date(78, false));
    assert!(!manifest.is_up_to_date(77, true));
    assert!(BuildOpts::default().embed);
}

#[test]
fn phases_are_timed_when_asked() {
    let mut t = PhaseTimer::new(true, 10);
    assert_eq!(t.mark(25), Some(15));
    assert_eq!(t.mark(26), Some(1));
    assert_eq!(PhaseTimer::new(false, 10).mark(25), None);
}

// --- the watcher -----------------------------------------------------------

#[test]
fn session_ids_become_safe_file_names() {
    assert_eq!(daemon::lease_file_name("abc-123_x.y"), "abc-123_x.y.json");
    assert_eq!(daemon::lease_file_name("../etc/passwd"), ".._etc_passwd.json");
    assert_eq!(daemon::lease_file_name(""), "session.json");
}

#[test]
fn state_dir_is_beside_the_index_not_inside_it() {
    let state = daemon::state_dir("/cache/csearch/repo-abc", "/elsewhere");
    assert_eq!(state, "/cache/csearch/watch/repo-abc");
    assert_eq!(daemon::state_dir("repo-abc/", "/elsewhere"), "watch/repo-abc");
    assert_eq!(daemon::state_dir("/repo-abc", "/elsewhere"), "/watch/repo-abc");
}

#[test]
fn project_root_climbs_to_the_git_toplevel() {
    let state = "/tmp/state";
    let nested = paths::join(state, "a/b/c");
    let has_git = |entry: &str| entry == "/tmp/state/.git";
    let found = daemon::project_root(&nested, &has_git).unwrap();
    assert_eq!(found, state);
    assert!(daemon::project_root(&nested, &|_: &str| false).is_none());
}

fn lease(session: &str, pid: u32) -> Lease {
    Lease {
        session: session.to_string(),
        pid,
        agent: "test".to_string(),
        since: 100,
    }
}

#[test]
fn dead_pids_lose_their_lease() {
    let leases = daemon::sort_leases(vec![
        lease("dead", i32::MAX as u32),
        lease("b", 0),
        lease("a", 4242),
    ]);
    assert_eq!(leases.len(), 3);
    let alive: Vec<bool> = leases
        .iter()
        .map(|l| match l.pid {
            4242 => daemon::pid_alive(l.pid, 0, None),
            _ => daemon::pid_alive(l.pid, -1, Some(3)),
        })
        .collect();
    let (live, dead) = daemon::live_leases(&leases, &alive);
    let ids: Vec<&str> = live.iter().map(|&i| leases[i].session.as_str()).collect();
    assert_eq!(
        ids,
        ["a", "b"],
        "own pid and pid 0 are live; dead pid reaped"
    );
    assert_eq!(dead.len(), 1);
    assert_eq!(leases[dead[0]].session, "dead");
    // Not ours to signal, but running.
    assert!(daemon::pid_alive(7, -1, Some(daemon::EPERM)));
}

#[test]
fn waiting_ends_with_the_work() {
    assert_eq!(daemon::wait_for_idle(None, 0, 5000), daemon::Wait::Gone);
    assert_eq!(
        daemon::wait_for_idle(Some(WatchState::Idle), 0, 5000),
        daemon::Wait::Done
    );
    assert_eq!(
        daemon::wait_for_idle(Some(WatchState::Indexing), 0, 5000),
        daemon::Wait::Again
    );
    assert_eq!(
        daemon::wait_for_idle(Some(WatchState::Indexing), 5000, 5000),
        daemon::Wait::Done
    );
}

fn watcher(leased: bool) -> Watcher {
    let opts = WatchOpts {
        embed: true,
        leased,
        grace_secs: 20,
        unload_secs: 300,
        title_weight: 2,
    };
    let mut w = Watcher::new(
        opts,
        9,
        "/r".to_string(),
        "/i".to_string(),
        vec!["s".to_string()],
        1000,
        0,
    );
    w.rebuilt(Ok(5), 0, true, 1000, 5);
    w
}

#[test]
fn the_watcher_reindexes_and_leaves() {
    let mut w = watcher(true);
    assert_eq!(w.status.rebuilds, 1);
    assert!(matches!(w.status.state, WatchState::Idle));
    assert!(matches!(w.next(true, true, 10), Step::Exit(daemon::ExitReason::StopSignal)));
    let mut w = watcher(true);
    assert!(matches!(w.next(false, true, 10), Step::Reindex));
    let mut w = watcher(true);
    assert!(matches!(w.next(false, false, 3000), Step::CheckLeases));
    let first = w.leases_checked(Vec::new(), true, 3000);
    assert!(first.changed);
    assert!(!first.exit);
    assert!(!w.leases_checked(Vec::new(), true, 22_000).exit);
    assert!(w.leases_checked(Vec::new(), true, 23_000).exit);
    // A session in between starts the wait anew.
    let mut w = watcher(true);
    w.leases_checked(Vec::new(), true, 3000);
    w.leases_checked(vec!["s".to_string()], true, 10_000);
    assert!(!w.leases_checked(Vec::new(), true, 23_000).exit);
    w.rebuilt(Err("disk".to_string()), 1, false, 2000, 24_000);
    assert_eq!(w.status.last_error.as_deref(), Some("disk"));
}

#[test]
fn watchers_are_started_with_their_options() {
    let opts = daemon::StartOpts::default();
    let args = daemon::watch_args("/r", &opts);
    assert!(args.contains(&"/r".to_string()));
    assert!(!args.contains(&"--lexical".to_string()));
    let lexical = daemon::StartOpts { lexical: true, ..opts };
    assert!(daemon::watch_args("/r", &lexical).contains(&"--lexical".to_string()));
    assert_eq!(daemon::leases_dir("/s"), "/s/leases");
    assert_eq!(daemon::lease_path("/s", "x"), "/s/leases/x.json");
    assert_eq!(
        daemon::session_root(None, "/c".to_string(), true).as_deref(),
        Some("/c")
    );
    assert_eq!(daemon::session_root(None, "/c".to_string(), false), None);
    assert_eq!(
        daemon::session_root(Some("/g".to_string()), "/c".to_string(), true).as_deref(),
        Some("/g")
    );
}

// --- the tool server -------------------------------------------------------

#[test]
fn languages_are_fenced_correctly() {
    assert_eq!(mcp::language_for("a/b.rs"), "rust");
    assert_eq!(mcp::language_for("a/b.tsx"), "tsx");
    assert_eq!(mcp::language_for("Makefile"), "");
}

#[test]
fn hits_resolve_to_locations() {
    let hit = mcp::Hit::new(
        "src/searcher.rs:10-42".into(),
        "src/searcher.rs::query_terms".into(),
        3 << 47,
        Some((3 << 24, 13421773)),
    )
    .unwrap();
    assert_eq!(hit.path, "src/searcher.rs");
    assert_eq!((hit.start_line, hit.end_line), (10, 42));
    assert_eq!(hit.name.as_deref(), Some("query_terms"));
    // A non-repo id (e.g. an index built from plain JSONL) is skipped
    // rather than rendered as a bogus location.
    assert!(mcp::Hit::new("doc-7".into(), "Doc 7".into(), 1 << 48, None).is_none());
}

#[test]
fn disk_full_is_actionable_without_verbose_and_survives_diagnostics() {
    let cause = "document embedding repair failed: failed to create /cache/seg-000046/embeddings.bin: no storage space";
    let mut result = mcp::tool_failure(cause, true);
    assert!(result.is_error);
    assert_eq!(result.problem.as_ref().unwrap().code, "insufficient_disk_space");
    assert!(result.diagnostics.is_none());
    let text = result.content[0].clone();
    assert!(text.starts_with("Not enough disk space."));
    assert!(text.contains("Free space"));
    assert!(text.contains("/cache/seg-000046/embeddings.bin"));
    result.append_diagnostics("{\n  \"encoder\": {\n    \"state\": \"ready\"\n  }\n}".to_string());
    let problem = result.problem.unwrap();
    assert_eq!(problem.code, "insufficient_disk_space");
    assert_eq!(problem.cause, cause);
    assert!(result.diagnostics.unwrap().contains("\"state\": \"ready\""));
    assert_eq!(result.content.len(), 2);
    assert!(result.content[1].starts_with("Debug diagnostics:\n{"));
}

#[test]
fn other_failures_are_not_mislabeled_as_disk_full() {
    for error in [
        "permission denied",
        "missing keys.bin after a previous No space left on device error",
    ] {
        let result = mcp::tool_failure(error, false);
        assert!(result.is_error);
        assert!(result.problem.is_none());
        assert_eq!(result.content[0], error);
    }
}

#[test]
fn the_server_tells_its_state() {
    let manifest = Manifest {
        root: "/r".to_string(),
        num_docs: 12,
        num_files: 3,
        embedded: false,
        build_ms: 1295,
        encoded: 4,
        cached: 8,
        tree_fingerprint: 0,
        files: Vec::new(),
    };
    let mut server = mcp::Server::start(true, false, false);
    let text = mcp::status_text(&manifest, "/cache/i", &server, "not loaded", None);
    assert_eq!(
        text,
        "root: /r\nindex: /cache/i\nchunks: 12 from 3 files\n\
         retrieval: lexical (BM25, code tokenizer)\nencoder: not loaded\n\
         freshness: not watching (call `reindex` after edits)\nrebuilds this session: 0\n\
         last build: 1.30s (4 encoded, 8 from cache)"
    );
    assert!(!server.repair_needed(true, 3));
    let hybrid = mcp::Server::start(true, true, true);
    assert!(hybrid.repair_needed(true, 3));
    assert!(!hybrid.repair_needed(true, 0));
    assert!(!hybrid.repair_needed(false, 3));
    server.rebuilt(false);
    let watched = mcp::status_text(&manifest, "/cache/i", &server, "ready", Some((7, true)));
    assert!(watched.contains("watching (events seen: 7, pending rebuild: true)"));
    assert!(watched.contains("rebuilds this session: 1"));
    assert_eq!(
        mcp::rebuild_text(&manifest, 15),
        "Rebuilt in 1.30s: 12 chunks (-3), 4 encoded, 8 reused from cache."
    );
    assert!(mcp::rebuild_text(&manifest, 12).contains("12 chunks (+0)"));
}

#[test]
fn successful_tools_reply_with_their_text() {
    let mut reply = mcp::ToolReply::success("done".to_string());
    assert!(!reply.is_error);
    assert_eq!(reply.content, vec!["done".to_string()]);
    assert!(reply.problem.is_none() && reply.diagnostics.is_none());
    reply.append_diagnostics("{}".to_string());
    assert_eq!(reply.content[1], "Debug diagnostics:\n{}");
}

#[test]
fn lines_are_parsed_into_work() {
    match mcp::handle_line("{nope") {
        LineWork::Refuse { code, message } => {
            assert_eq!(code, mcp::PARSE_ERROR);
            assert!(message.starts_with("parse error: "));
            assert!(message.contains("line 1 column 2"));
        }
        _ => panic!("not refused"),
    }
    match mcp::handle_line("[]") {
        LineWork::Refuse { code, message } => {
            assert_eq!(code, mcp::INVALID_REQUEST);
            assert_eq!(message, "invalid request: empty batch");
        }
        _ => panic!("not refused"),
    }
    match mcp::handle_line("{\"id\":7,\"method\":\"ping\"}") {
        LineWork::One(Incoming::Request { id, method, params }) => {
            assert_eq!(id, "7");
            assert!(matches!(method, Method::Ping));
            assert_eq!(params, "{}");
        }
        _ => panic!("not a request"),
    }
    match mcp::handle_line("[{\"method\":\"ping\"},5,{\"id\":null,\"method\":\"x\"}]") {
        LineWork::Batch(items) => {
            assert_eq!(items.len(), 3);
            assert!(matches!(items[0], Incoming::Notification));
            assert!(matches!(items[1], Incoming::Invalid));
            match &items[2] {
                Incoming::Request { id, method: Method::Unknown(name), .. } => {
                    assert_eq!(id, "null");
                    assert_eq!(name, "x");
                }
                _ => panic!("not a request"),
            }
        }
        _ => panic!("not a batch"),
    }
}

#[test]
fn protocol_versions_are_negotiated() {
    let latest = mcp::negotiate(None);
    assert_eq!(mcp::negotiate(Some(latest.clone())), latest);
    assert_eq!(mcp::negotiate(Some("1999-01-01".to_string())), latest);
    assert_eq!(mcp::negotiate(Some("2024-11-05".to_string())), "2024-11-05");
}

#[test]
fn tool_calls_name_their_tool() {
    match mcp::read_tool_call("{\"name\":\"search_code\",\"arguments\":{\"query\":\"x\"}}") {
        ToolCall::Call { tool, verbose, arguments } => {
            assert!(matches!(tool, Tool::Search));
            assert!(!verbose);
            assert_eq!(arguments, "{\"query\":\"x\"}");
        }
        _ => panic!("no call"),
    }
    match mcp::read_tool_call("{\"name\":\"reindex\",\"arguments\":{\"retrain\":true,\"verbose\":true}}") {
        ToolCall::Call { tool, verbose, .. } => {
            assert!(matches!(tool, Tool::Reindex { retrain: true }));
            assert!(verbose);
        }
        _ => panic!("no call"),
    }
    assert!(matches!(mcp::read_tool_call("{}"), ToolCall::Nameless));
    assert!(matches!(
        mcp::read_tool_call("{\"name\":\"search_code\",\"arguments\":{\"verbose\":1}}"),
        ToolCall::BadVerbose
    ));
}

#[test]
fn search_arguments_are_checked() {
    let error = |arguments: &str| {
        let args = mcp::read_search_args(arguments);
        match mcp::search_target(&args) {
            Err(e) => Some(e),
            Ok(_) => mcp::search_options(&args, 5).err(),
        }
    };
    assert_eq!(error("{}"), Some(mcp::ArgError::QueryRequired));
    assert_eq!(error("{\"query\":\"  \"}"), Some(mcp::ArgError::QueryEmpty));
    assert_eq!(
        error("{\"query\":\"q\",\"expected_root\":3}"),
        Some(mcp::ArgError::RootNotText)
    );
    assert_eq!(
        error("{\"query\":\"q\",\"expected_root\":\"rel\"}"),
        Some(mcp::ArgError::RootNotAbsolute)
    );
    assert_eq!(error("{\"query\":\"q\",\"top_k\":51}"), Some(mcp::ArgError::TopK));
    assert_eq!(error("{\"query\":\"q\",\"top_k\":0}"), Some(mcp::ArgError::TopK));
    assert_eq!(
        error("{\"query\":\"q\",\"include_snippet\":\"y\"}"),
        Some(mcp::ArgError::IncludeSnippet)
    );
    assert_eq!(
        error("{\"query\":\"q\",\"path_glob\":[]}"),
        Some(mcp::ArgError::PathGlob)
    );
    assert_eq!(
        error("{\"query\":\"q\",\"mode\":\"psychic\"}"),
        Some(mcp::ArgError::UnknownMode)
    );
    assert_eq!(error("{\"query\":\"q\"}"), None);
    assert_eq!(mcp::check_root("/a", "/a"), Ok(()));
    assert_eq!(
        mcp::check_root("/a", "/b"),
        Err("MCP root mismatch: this server serves /b; requested /a. Connect a server for the \
             requested repository or use hips search --root."
            .to_string())
    );
    assert_eq!(
        mcp::ArgError::TopK.message(),
        "`top_k` must be an integer between 1 and 50"
    );

    let args = mcp::read_search_args(
        "{\"query\":\" find me \",\"top_k\":7,\"mode\":\"semantic\",\"path_glob\":\"src/*\",\"include_snippet\":true}",
    );
    let (query, root) = mcp::search_target(&args).unwrap();
    assert_eq!(query, "find me");
    assert!(root.is_none());
    let request = mcp::search_options(&args, 5).unwrap();
    assert_eq!(request.top_k, 7);
    assert!(request.include_snippet);
    assert_eq!(request.path_glob.as_deref(), Some("src/*"));
    assert_eq!(request.mode, Some(Mode::Semantic));
    assert_eq!(mcp::fetch_count(7, true), 56);
    assert_eq!(mcp::fetch_count(7, false), 7);
    assert_eq!(mcp::clamp_top_k(500), 50);
    assert_eq!(mcp::clamp_top_k(0), 1);
}

#[test]
fn json_fields_are_told_apart() {
    let text = "{\"s\":\"text\",\"n\":12,\"neg\":-1,\"b\":true}";
    assert!(matches!(json::read_text(text, "s"), Field::Is(ref v) if v == "text"));
    assert!(matches!(json::read_text(text, "n"), Field::Wrong));
    assert!(matches!(json::read_text(text, "zzz"), Field::Absent));
    assert!(matches!(json::read_whole(text, "n"), Field::Is(12)));
    assert!(matches!(json::read_whole(text, "neg"), Field::Wrong));
    assert!(matches!(json::read_flag(text, "b"), Field::Is(true)));
    assert!(matches!(json::read_flag(text, "s"), Field::Wrong));
}

#[test]
fn answers_list_locations() {
    let hits = vec![
        mcp::Hit::new("src/a.rs:1-2".into(), "src/a.rs::run".into(), 5, None).unwrap(),
        mcp::Hit::new("b.py:3-4".into(), "b.py".into(), 4, None).unwrap(),
    ];
    let text = mcp::render(
        "say \"hi\"",
        "/r",
        &hits,
        &vec![None, Some("x = 1".to_string())],
    );
    assert_eq!(
        text,
        "2 results for \"say \\\"hi\\\"\" in /r:\n\n1. src/a.rs:1-2  run\n\n2. b.py:3-4\n\n```python\nx = 1\n```\n\n"
    );
    let kept = mcp::select_hits(hits, Some("**/*.rs".to_string()), 5);
    assert_eq!(kept.len(), 1);
    assert_eq!(kept[0].path, "src/a.rs");
    let nothing = mcp::search_answer(
        Mode::Lexical,
        0,
        false,
        "q",
        "/r",
        &None,
        &Vec::new(),
        &Vec::new(),
    );
    assert!(nothing.contains("\"q\""));
    assert!(nothing.contains("/r"));
}

#[test]
fn failed_refresh_is_retried() {
    let mut server = mcp::Server::start(true, false, false);
    assert_eq!(server.ensure_fresh(false, true, false), mcp::Refresh::Rebuild);
    // The rebuild failed: nothing was reported back.
    for _ in 0..2 {
        assert_eq!(server.ensure_fresh(false, false, false), mcp::Refresh::Rebuild);
        assert!(server.refresh_pending);
    }
    server.rebuilt(false);
    assert!(!server.refresh_pending);
    assert_eq!(server.ensure_fresh(false, false, false), mcp::Refresh::Keep);
    assert_eq!(server.ensure_fresh(false, false, true), mcp::Refresh::Reopen);
}

#[test]
fn recovery_forces_a_rebuild() {
    let mut server = mcp::Server::start(true, false, false);
    assert!(!server.refresh_pending);
    assert_eq!(server.ensure_fresh(true, false, false), mcp::Refresh::Rebuild);
    server.rebuilt(false);
    assert_eq!(server.rebuilds, 1);
    assert!(!server.refresh_pending);
}

#[test]
fn modes_follow_the_vectors() {
    assert_eq!(mcp::effective_mode(None, true), Mode::Hybrid);
    assert_eq!(mcp::effective_mode(None, false), Mode::Lexical);
    assert_eq!(mcp::effective_mode(Some(Mode::Semantic), false), Mode::Semantic);
    assert_eq!(mcp::retrieval(Some(Mode::Lexical), true), mcp::Retrieval::Lexical);
    assert_eq!(
        mcp::retrieval(Some(Mode::Semantic), true),
        mcp::Retrieval::Ranked(RankMode::Semantic)
    );
    assert_eq!(mcp::retrieval(Some(Mode::Semantic), false), mcp::Retrieval::Disabled);
    let names: Vec<&str> = mcp::search_modes(true).iter().map(|m| m.name()).collect();
    assert_eq!(names, ["hybrid", "lexical", "semantic"]);
    assert_eq!(mcp::search_modes(false).len(), 1);
}

// --- grammars --------------------------------------------------------------

#[test]
fn downloads_are_held_to_their_checksum() {
    let abc = "ba7816bf8f01cfea414140de5dae2223b00361a396177a9cb410ff61f20015ad";
    let file = format!("{abc}  libhips_grammar_python.so\n");
    let expected = grammar::expected_checksum(&file).unwrap();
    assert_eq!(expected, abc);
    assert_eq!(grammar::check_download(b"abc", &expected), Ok(()));
    assert_eq!(
        grammar::check_download(b"abd", &expected),
        Err(grammar::DownloadError::Mismatch)
    );
    assert_eq!(
        grammar::accept(grammar::MAX_GRAMMAR_BYTES + 1, &[], ""),
        Err(grammar::DownloadError::TooLarge)
    );
    assert_eq!(grammar::expected_checksum(" \n"), Err(grammar::ChecksumError::Empty));
    assert_eq!(
        grammar::expected_checksum("xyz"),
        Err(grammar::ChecksumError::Invalid)
    );
    assert_eq!(grammar::to_hex(&[0, 255, 16]), "00ff10");
}

#[test]
fn grammars_come_from_the_nearest_place() {
    assert_eq!(grammar::choose_source(true, true, false), grammar::Source::Installed);
    assert_eq!(grammar::choose_source(false, true, true), grammar::Source::Cached);
    assert_eq!(grammar::choose_source(false, false, true), grammar::Source::Missing);
    assert_eq!(grammar::choose_source(false, false, false), grammar::Source::Download);
    assert_eq!(grammar::library_name("python", "so"), "libhips_grammar_python.so");
    assert_eq!(
        grammar::platform("x86_64", "linux", true),
        Err(grammar::PlatformError::NeedsGlibc)
    );
    assert_eq!(
        grammar::platform("mips", "plan9", false),
        Err(grammar::PlatformError::Unsupported)
    );
    assert_eq!(
        grammar::platform("x86_64", "linux", false),
        Ok("x86_64-unknown-linux-gnu")
    );
    assert!(grammar::cache_dir(None, None, "t").is_none());
    assert!(grammar::cache_dir(Some("/x"), None, "t").unwrap().starts_with("/x/"));
}

// --- the command line ------------------------------------------------------

#[test]
fn index_arguments_are_planned() {
    use_plan(ReorderStrategy::Keep, false, false, false, Ok(cli::IndexPlan::InMemory));
    use_plan(ReorderStrategy::Keep, true, false, false, Ok(cli::IndexPlan::External));
    use_plan(ReorderStrategy::Keep, false, false, true, Ok(cli::IndexPlan::Embedded));
    use_plan(ReorderStrategy::Bp, true, false, false, Err(cli::IndexArgError::ExternalReorder));
    use_plan(ReorderStrategy::Keep, true, true, false, Err(cli::IndexArgError::ExternalCode));
    use_plan(ReorderStrategy::Keep, true, false, true, Err(cli::IndexArgError::ExternalEmbed));
    use_plan(ReorderStrategy::BpGpu, false, false, false, Err(cli::IndexArgError::NoGpu));
    assert_eq!(
        cli::plan_index(ReorderStrategy::Keep, false, false, true, false, false),
        Err(cli::IndexArgError::NoEncoder)
    );
    assert!(cli::embed_or_degrade(true, true));
    assert!(!cli::embed_or_degrade(true, false));
}

fn use_plan(
    reorder: ReorderStrategy,
    external: bool,
    code: bool,
    embed: bool,
    expected: Result<cli::IndexPlan, cli::IndexArgError>,
) {
    assert_eq!(cli::plan_index(reorder, external, code, embed, false, true), expected);
}

#[test]
fn links_are_rendered_for_the_terminal() {
    assert_eq!(cli::percent_encode("a b/é"), "a%20b%2F%C3%A9");
    let url = cli::result_url("https://e/{id}?t={title}", "x y", "T");
    assert_eq!(url, "https://e/x%20y?t=T");
    assert_eq!(cli::render_title(None, "i", "T", cli::Terminal::Other), "T");
    assert!(cli::link("u", "T", cli::Terminal::Other).contains('\u{1b}'));
    assert!(cli::link("u", "T", cli::Terminal::Pipe).contains("T"));
}

#[test]
fn query_files_are_parsed() {
    assert_eq!(
        cli::parse_queries("q1\tfind me\nnonsense\nq2\tother\n"),
        vec![
            ("q1".to_string(), "find me".to_string()),
            ("q2".to_string(), "other".to_string())
        ]
    );
    assert_eq!(
        cli::parse_qrels("q1 0 d1 2\n\nq1 0 d2 x\n"),
        Ok(vec![
            ("q1".to_string(), "d1".to_string(), 2),
            ("q1".to_string(), "d2".to_string(), 0)
        ])
    );
    assert!(cli::parse_qrels("q1 0 d1 2\nq1 0\n").is_err());
    assert_eq!(cli::parse_lines("a\n\n b \n"), vec!["a", "b"]);
    assert_eq!(cli::parse_sweep("1,8,x", 4), vec![1, 8]);
    assert!(matches!(cli::prompt_line("  "), cli::PromptLine::Nothing));
    assert!(matches!(cli::prompt_line("pizza"), cli::PromptLine::Query(ref q) if q == "pizza"));
    assert_eq!(
        cli::resolve_index(Some("/given"), "/default", false).as_deref(),
        Some("/given")
    );
    assert_eq!(cli::resolve_index(None, "/default", false), None);
    assert_eq!(cli::resolve_index(None, "/default", true).as_deref(), Some("/default"));
}

#[test]
fn texts_to_embed_follow_the_index() {
    let docs = vec![
        InputDoc { id: "a".into(), title: "A".into(), body: "one".into() },
        InputDoc { id: "b".into(), title: "B".into(), body: "two".into() },
    ];
    let indexed = vec![
        DocSummary { id: "b".into(), title: "B".into() },
        DocSummary { id: "a".into(), title: "A".into() },
    ];
    let texts = cli::embed_texts(&docs, &indexed);
    assert_eq!(texts.len(), 2);
    assert!(texts[0].contains("two"));
    assert!(texts[1].contains("one"));
}

#[test]
fn rank_arguments_become_options() {
    let args = cli::RankArgs {
        mode: RankMode::Bm25,
        hybrid: true,
        semantic_candidates: 50,
        fusion: FusionArg::Rrf,
        alpha: 1,
        rrf_k: 2,
        nprobe: 3,
        no_pq: true,
    };
    let opts = args.opts();
    assert_eq!(opts.mode, RankMode::Hybrid);
    assert_eq!(opts.pq, PqMode::Off);
    assert_eq!(opts.semantic_candidates, 50);
    assert_eq!(opts.nprobe, 3);
    assert_eq!(SearchOpts::default().semantic_candidates, 200);
    let args = FusionArgs {
        semantic_candidates: 7,
        fusion: FusionArg::Rrf,
        alpha: 1,
        rrf_k: 2,
        nprobe: 3,
        no_pq: true,
    };
    let opts = args.to_opts(RankMode::Rerank);
    assert_eq!(opts.mode, RankMode::Rerank);
    assert_eq!((opts.semantic_candidates, opts.nprobe), (7, 3));
    assert_eq!(opts.pq, PqMode::Off);
}

// --- measures --------------------------------------------------------------

#[test]
fn percentiles() {
    let data = vec![1.0, 2.0, 3.0, 4.0, 5.0, 6.0, 7.0, 8.0, 9.0, 10.0];
    assert_eq!(percentile(&data, 50), Some(5.0));
    assert_eq!(percentile(&data, 95), Some(10.0));
    assert_eq!(percentile(&data, 100), Some(10.0));
    assert_eq!(percentile::<f64>(&[], 50), None);
    assert_eq!(percentile(&[3.5], 95), Some(3.5));
}

#[test]
fn work_is_tallied() {
    let mut a = SearchStats::default();
    a.num_docs_scored = 3;
    a.num_blocks_skipped = 2;
    let mut b = SearchStats::default();
    b.num_docs_scored = 4;
    let t = tally(&[a, b]);
    assert_eq!(t.num_queries, 2);
    assert_eq!(t.docs_scored, 7);
    assert_eq!(t.blocks_skipped, 2);
    let docs = vec![tokens("1", "x y"), tokens("2", "x")];
    let index = build_index(&docs, false, DEFAULT_BLOCK_SIZE, ReorderStrategy::Keep);
    assert_eq!(term_postings(&index, &words("x y nothing")), 3);
}

type Rels = Vec<(String, u32)>;

/// Discounted gain of the first ten, over that of the best order.
fn ndcg_at_10(ranked: &[String], rels: &Rels) -> f64 {
    let gain = |g: u32, i: usize| (f64::from(g).exp2() - 1.0) / ((i + 2) as f64).log2();
    let dcg: f64 = ranked
        .iter()
        .take(10)
        .enumerate()
        .filter_map(|(i, id)| relevance_of(rels, id).map(|g| gain(g, i)))
        .sum();
    let mut best: Vec<u32> = rels.iter().map(|r| r.1).collect();
    best.sort_by(|a, b| b.cmp(a));
    let ideal: f64 = best.iter().take(10).enumerate().map(|(i, &g)| gain(g, i)).sum();
    dcg / ideal
}

fn ratio(x: u64) -> f64 {
    x as f64 / hips::eval::ONE as f64
}

#[test]
fn perfect_ranking() {
    let ranked: Vec<Vec<String>> = vec![vec!["a".into(), "b".into(), "c".into()]];
    let qrels: Vec<Rels> = vec![vec![("a".into(), 3), ("b".into(), 1)]];
    let m = evaluate(&ranked, &qrels);
    assert!((ratio(m.mrr) - 1.0).abs() < 1e-9);
    assert!((ratio(m.recall_at_5) - 1.0).abs() < 1e-9);
    assert!((ndcg_at_10(&ranked[0], &qrels[0]) - 1.0).abs() < 1e-9);
}

#[test]
fn miss_and_late_hit() {
    let ranked: Vec<Vec<String>> = vec![vec!["x".into(), "a".into()]];
    let qrels: Vec<Rels> = vec![vec![("a".into(), 2)]];
    let m = evaluate(&ranked, &qrels);
    assert!((ratio(m.mrr) - 0.5).abs() < 1e-9);
    assert!((ratio(m.recall_at_5) - 1.0).abs() < 1e-9);
    assert_eq!(m.n, 1);
    assert!(is_relevant(&qrels[0], "a"));
    assert_eq!(first_relevant(&ranked[0], &qrels[0]), Some(1));
}
