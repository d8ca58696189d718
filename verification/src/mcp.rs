//! Model Context Protocol: what a line from the client asks for, and what a
//! search answers.
//!
//! The transport is newline-delimited JSON-RPC. Reading the fields of a
//! message and deciding about them are separate functions, so that every
//! decision has plain values as its input.

use crate::block_max_wand;
use crate::chunk;
use crate::codeindex::Manifest;
use crate::ignore;
use crate::json;
use crate::json::Field;
use crate::query::RankMode;
use crate::text;
use vstd::prelude::*;
use vstd::slice::slice_subrange;
use vstd::utf8::encode_utf8;

verus! {

/// Most results of one search.
pub const MAX_TOP_K: usize = 50;

/// Most results fetched before a path filter.
pub const MAX_FETCH: usize = 500;

/// Snippet lines of one hit.
pub const SNIPPET_LINES: usize = 4;

pub const PARSE_ERROR: i32 = -32700;

pub const INVALID_REQUEST: i32 = -32600;

pub const METHOD_NOT_FOUND: i32 = -32601;

pub const INTERNAL_ERROR: i32 = -32603;

fn owned(s: &str) -> (t: String)
    ensures
        t@ == s@,
{
    let chars = text::chars_of(s);
    text::string_of(chars.as_slice())
}

fn concat(a: &str, b: &str) -> (t: String)
    ensures
        t@ == a@ + b@,
{
    let mut out = text::chars_of(a);
    text::append_str(&mut out, b);
    text::string_of(out.as_slice())
}

fn is_text(a: &str, b: &str) -> (r: bool)
    ensures
        r == (a@ == b@),
{
    let x = text::chars_of(a);
    text::is(x.as_slice(), b)
}

// ---------------------------------------------------------------------------
// Messages
// ---------------------------------------------------------------------------

/// A protocol version that is spoken here.
pub open spec fn supported(v: Seq<char>) -> bool {
    v == "2025-06-18"@ || v == "2025-03-26"@ || v == "2024-11-05"@
}

/// The version to answer with: the client's where it is supported.
pub open spec fn negotiated(requested: Option<Seq<char>>) -> Seq<char> {
    match requested {
        Some(v) => if supported(v) {
            v
        } else {
            "2025-06-18"@
        },
        None => "2025-06-18"@,
    }
}

pub fn negotiate(requested: Option<String>) -> (v: String)
    ensures
        v@ == negotiated(json::opt(requested)),
{
    if let Some(r) = requested {
        if is_text(r.as_str(), "2025-06-18") || is_text(r.as_str(), "2025-03-26") || is_text(
            r.as_str(),
            "2024-11-05",
        ) {
            return r;
        }
    }
    owned("2025-06-18")
}

/// What a request asks for.
pub enum Method {
    Initialize,
    ListTools,
    CallTool,
    Ping,
    Unknown(String),
}

/// What a message is.
pub enum Incoming {
    /// Not an object: answered with an error, or the client would wait
    /// forever.
    Invalid,
    /// Without an id: never answered.
    Notification,
    Request { id: String, method: Method, params: String },
}

/// The method of that name.
pub open spec fn is_method(m: Method, name: Seq<char>) -> bool {
    match m {
        Method::Initialize => name == "initialize"@,
        Method::ListTools => name == "tools/list"@,
        Method::CallTool => name == "tools/call"@,
        Method::Ping => name == "ping"@,
        Method::Unknown(other) => other@ == name && name != "initialize"@ && name != "tools/list"@
            && name != "tools/call"@ && name != "ping"@,
    }
}

/// What a message with these fields is.
pub open spec fn is_incoming(
    m: Incoming,
    object: bool,
    id: Option<Seq<char>>,
    method: Option<Seq<char>>,
    params: Option<Seq<char>>,
) -> bool {
    match m {
        Incoming::Invalid => !object,
        Incoming::Notification => object && id is None,
        Incoming::Request { id: i, method: f, params: p } => {
            &&& object
            &&& id == Some(i@)
            &&& is_method(
                f,
                match method {
                    Some(name) => name,
                    None => ""@,
                },
            )
            &&& p@ == match params {
                Some(given) => given,
                None => "{}"@,
            }
        },
    }
}

/// Classify a message by its fields. A missing method is the empty one,
/// missing parameters are an empty object.
pub fn classify(
    object: bool,
    id: Option<String>,
    method: Option<String>,
    params: Option<String>,
) -> (m: Incoming)
    ensures
        is_incoming(m, object, json::opt(id), json::opt(method), json::opt(params)),
{
    if !object {
        return Incoming::Invalid;
    }
    let id = match id {
        Some(i) => i,
        None => {
            return Incoming::Notification;
        },
    };
    let name = match method {
        Some(n) => n,
        None => owned(""),
    };
    let params = match params {
        Some(p) => p,
        None => owned("{}"),
    };
    let method = if is_text(name.as_str(), "initialize") {
        Method::Initialize
    } else if is_text(name.as_str(), "tools/list") {
        Method::ListTools
    } else if is_text(name.as_str(), "tools/call") {
        Method::CallTool
    } else if is_text(name.as_str(), "ping") {
        Method::Ping
    } else {
        Method::Unknown(name)
    };
    Incoming::Request { id, method, params }
}

/// What the message `text` is.
pub open spec fn is_message(m: Incoming, text: Seq<char>) -> bool {
    is_incoming(
        m,
        json::object(text),
        json::field(text, "id"@),
        json::text_field(text, "method"@),
        json::field(text, "params"@),
    )
}

/// One message of a line.
pub fn handle_message(message: &str) -> (m: Incoming)
    ensures
        is_message(m, message@),
{
    classify(
        json::is_object(message),
        json::get(message, "id"),
        json::get_text(message, "method"),
        json::get(message, "params"),
    )
}

/// What a line asks for.
pub enum LineWork {
    /// An error that concerns no request.
    Refuse { code: i32, message: String },
    /// The messages of a batch.
    Batch(Vec<Incoming>),
    One(Incoming),
}

/// What the line `text` asks for.
pub open spec fn is_line_work(w: LineWork, text: Seq<char>) -> bool {
    match (json::complaint(text), json::elements(text)) {
        (Some(e), _) => w matches LineWork::Refuse { code, message } && code == PARSE_ERROR
            && message@ == "parse error: "@ + e,
        (None, Some(items)) => if items.len() == 0 {
            w matches LineWork::Refuse { code, message } && code == INVALID_REQUEST && message@
                == "invalid request: empty batch"@
        } else {
            w matches LineWork::Batch(list) && list@.len() == items.len() && forall|i: int|
                0 <= i < items.len() ==> is_message(list@[i], #[trigger] items[i])
        },
        (None, None) => w matches LineWork::One(m) && is_message(m, text),
    }
}

/// Parse one line. It holds a message or a batch of messages.
pub fn handle_line(line: &str) -> (w: LineWork)
    ensures
        is_line_work(w, line@),
{
    if let Some(e) = json::parse_error(line) {
        return LineWork::Refuse { code: PARSE_ERROR, message: concat("parse error: ", e.as_str()) };
    }
    match json::items(line) {
        Some(items) => {
            let n: usize = items.len();
            if n == 0 {
                return LineWork::Refuse {
                    code: INVALID_REQUEST,
                    message: owned("invalid request: empty batch"),
                };
            }
            let mut list: Vec<Incoming> = Vec::new();
            let ghost texts = block_max_wand::texts(items@);
            let mut i: usize = 0;
            while i < n
                invariant
                    i <= n,
                    n == items@.len(),
                    texts == block_max_wand::texts(items@),
                    list@.len() == i,
                    forall|j: int| 0 <= j < i ==> is_message(list@[j], #[trigger] texts[j]),
                decreases n - i,
            {
                let m = handle_message(items[i].as_str());
                assert(texts[i as int] == items@[i as int]@);
                list.push(m);
                i += 1;
            }
            LineWork::Batch(list)
        },
        None => LineWork::One(handle_message(line)),
    }
}

/// Is the message answered?
pub open spec fn wants_answer(m: Incoming) -> bool {
    !(m is Notification)
}

/// An object without an id is never answered, everything else is.
pub proof fn law_only_notifications_go_unanswered(m: Incoming, text: Seq<char>)
    requires
        is_message(m, text),
    ensures
        wants_answer(m) <==> !(json::object(text) && json::field(text, "id"@) is None),
{
}

// ---------------------------------------------------------------------------
// Tool calls
// ---------------------------------------------------------------------------

/// The tools.
pub enum Tool {
    Search,
    Status,
    Reindex { retrain: bool },
    Unknown(String),
}

/// A call of a tool.
pub enum ToolCall {
    /// The call names no tool.
    Nameless,
    /// `verbose` is not a boolean.
    BadVerbose,
    Call { tool: Tool, verbose: bool, arguments: String },
}

/// The tool of that name; `retrain` is what a rebuild was asked.
pub open spec fn is_tool(t: Tool, name: Seq<char>, retrain: Option<bool>) -> bool {
    match t {
        Tool::Search => name == "search_code"@,
        Tool::Status => name == "index_status"@,
        Tool::Reindex { retrain: r } => name == "reindex"@ && r == (retrain == Some(true)),
        Tool::Unknown(other) => other@ == name && name != "search_code"@ && name
            != "index_status"@ && name != "reindex"@,
    }
}

pub open spec fn is_tool_call(
    c: ToolCall,
    name: Option<Seq<char>>,
    arguments: Option<Seq<char>>,
    verbose: Field<bool>,
    retrain: Option<bool>,
) -> bool {
    match name {
        None => c is Nameless,
        Some(n) => if verbose is Wrong {
            c is BadVerbose
        } else {
            c matches ToolCall::Call { tool, verbose: v, arguments: a } && is_tool(
                tool,
                n,
                retrain,
            ) && v == (verbose == Field::Is(true)) && a@ == match arguments {
                Some(given) => given,
                None => "{}"@,
            }
        },
    }
}

/// What a tool call with these fields asks for.
pub fn tool_call(
    name: Option<String>,
    arguments: Option<String>,
    verbose: Field<bool>,
    retrain: Option<bool>,
) -> (c: ToolCall)
    ensures
        is_tool_call(c, json::opt(name), json::opt(arguments), verbose, retrain),
{
    let name = match name {
        Some(n) => n,
        None => {
            return ToolCall::Nameless;
        },
    };
    let verbose: bool = match verbose {
        Field::Absent => false,
        Field::Is(v) => v,
        Field::Wrong => {
            return ToolCall::BadVerbose;
        },
    };
    let arguments = match arguments {
        Some(a) => a,
        None => owned("{}"),
    };
    let retrain: bool = match retrain {
        Some(r) => r,
        None => false,
    };
    let tool = if is_text(name.as_str(), "search_code") {
        Tool::Search
    } else if is_text(name.as_str(), "index_status") {
        Tool::Status
    } else if is_text(name.as_str(), "reindex") {
        Tool::Reindex { retrain }
    } else {
        Tool::Unknown(name)
    };
    ToolCall::Call { tool, verbose, arguments }
}

/// The arguments of a call, an empty object where there are none.
pub open spec fn arguments_of(params: Seq<char>) -> Seq<char> {
    match json::field(params, "arguments"@) {
        Some(a) => a,
        None => "{}"@,
    }
}

/// The tool call that `params` spells.
pub fn read_tool_call(params: &str) -> (c: ToolCall)
    ensures
        is_tool_call(
            c,
            json::text_field(params@, "name"@),
            json::field(params@, "arguments"@),
            json::field_of(
                json::field(arguments_of(params@), "verbose"@) is Some,
                json::flag_field(arguments_of(params@), "verbose"@),
            ),
            json::flag_field(arguments_of(params@), "retrain"@),
        ),
{
    let given = json::get(params, "arguments");
    let arguments = match &given {
        Some(a) => owned(a.as_str()),
        None => owned("{}"),
    };
    let verbose = json::read_flag(arguments.as_str(), "verbose");
    let retrain = json::get_flag(arguments.as_str(), "retrain");
    tool_call(json::get_text(params, "name"), given, verbose, retrain)
}

// ---------------------------------------------------------------------------
// Search arguments
// ---------------------------------------------------------------------------

/// A retrieval mode that a client can ask for.
#[derive(Clone, Copy, PartialEq, Eq, Debug, Structural)]
pub enum Mode {
    Hybrid,
    Semantic,
    Lexical,
}

/// The name of a mode.
pub open spec fn mode_text(m: Mode) -> Seq<char> {
    match m {
        Mode::Hybrid => "hybrid"@,
        Mode::Semantic => "semantic"@,
        Mode::Lexical => "lexical"@,
    }
}

/// What is wrong with the arguments of a search.
#[derive(Clone, Copy, PartialEq, Eq, Debug, Structural)]
pub enum ArgError {
    QueryRequired,
    QueryEmpty,
    RootNotText,
    RootNotAbsolute,
    TopK,
    IncludeSnippet,
    PathGlob,
    UnknownMode,
}

impl ArgError {
    /// What the client is told.
    pub open spec fn text(&self) -> Seq<char> {
        match self {
            ArgError::QueryRequired => "`query` is required"@,
            ArgError::QueryEmpty => "`query` is empty"@,
            ArgError::RootNotText => "`expected_root` must be an absolute path string"@,
            ArgError::RootNotAbsolute => "`expected_root` must be absolute"@,
            ArgError::TopK => "`top_k` must be an integer between 1 and 50"@,
            ArgError::IncludeSnippet => "`include_snippet` must be a boolean"@,
            ArgError::PathGlob => "`path_glob` must be a string"@,
            ArgError::UnknownMode => "`mode` must be hybrid, semantic, or lexical"@,
        }
    }

    pub fn message(&self) -> (s: String)
        ensures
            s@ == self.text(),
    {
        match self {
            ArgError::QueryRequired => owned("`query` is required"),
            ArgError::QueryEmpty => owned("`query` is empty"),
            ArgError::RootNotText => owned("`expected_root` must be an absolute path string"),
            ArgError::RootNotAbsolute => owned("`expected_root` must be absolute"),
            ArgError::TopK => owned("`top_k` must be an integer between 1 and 50"),
            ArgError::IncludeSnippet => owned("`include_snippet` must be a boolean"),
            ArgError::PathGlob => owned("`path_glob` must be a string"),
            ArgError::UnknownMode => owned("`mode` must be hybrid, semantic, or lexical"),
        }
    }
}

/// The arguments of a search as they were given.
pub struct SearchArgs {
    pub query: Option<String>,
    pub expected_root: Field<String>,
    pub top_k: Field<u64>,
    pub include_snippet: Field<bool>,
    pub path_glob: Field<String>,
    pub mode: Field<String>,
}

/// The fields of the arguments of a search.
pub fn read_search_args(arguments: &str) -> (a: SearchArgs)
    ensures
        json::opt(a.query) == json::text_field(arguments@, "query"@),
        json::text_of(a.expected_root) == json::field_of(
            json::field(arguments@, "expected_root"@) is Some,
            json::text_field(arguments@, "expected_root"@),
        ),
        a.top_k == json::field_of(
            json::field(arguments@, "top_k"@) is Some,
            json::whole_field(arguments@, "top_k"@),
        ),
        a.include_snippet == json::field_of(
            json::field(arguments@, "include_snippet"@) is Some,
            json::flag_field(arguments@, "include_snippet"@),
        ),
        json::text_of(a.path_glob) == json::field_of(
            json::field(arguments@, "path_glob"@) is Some,
            json::text_field(arguments@, "path_glob"@),
        ),
        json::text_of(a.mode) == json::field_of(
            json::field(arguments@, "mode"@) is Some,
            json::text_field(arguments@, "mode"@),
        ),
{
    SearchArgs {
        query: json::get_text(arguments, "query"),
        expected_root: json::read_text(arguments, "expected_root"),
        top_k: json::read_whole(arguments, "top_k"),
        include_snippet: json::read_flag(arguments, "include_snippet"),
        path_glob: json::read_text(arguments, "path_glob"),
        mode: json::read_text(arguments, "mode"),
    }
}

/// The query of a search and the root that the client expects, or what is
/// wrong with them.
pub open spec fn target_of(query: Option<Seq<char>>, root: Field<Seq<char>>) -> Result<
    (Seq<char>, Option<Seq<char>>),
    ArgError,
> {
    match query {
        None => Err(ArgError::QueryRequired),
        Some(q) => if text::trimmed(q).len() == 0 {
            Err(ArgError::QueryEmpty)
        } else {
            match root {
                Field::Absent => Ok((text::trimmed(q), None)),
                Field::Wrong => Err(ArgError::RootNotText),
                Field::Is(r) => if r.len() > 0 && r[0] == '/' {
                    Ok((text::trimmed(q), Some(r)))
                } else {
                    Err(ArgError::RootNotAbsolute)
                },
            }
        },
    }
}

/// The query without surrounding white space, and the expected root.
pub fn search_target(args: &SearchArgs) -> (r: Result<(String, Option<String>), ArgError>)
    ensures
        match r {
            Ok((q, root)) => target_of(json::opt(args.query), json::text_of(args.expected_root))
                == Ok::<(Seq<char>, Option<Seq<char>>), ArgError>((q@, json::opt(root))),
            Err(e) => target_of(json::opt(args.query), json::text_of(args.expected_root)) == Err::<
                (Seq<char>, Option<Seq<char>>),
                ArgError,
            >(e),
        },
{
    let raw = match &args.query {
        Some(q) => text::chars_of(q.as_str()),
        None => {
            return Err(ArgError::QueryRequired);
        },
    };
    let query: &[char] = text::trim(raw.as_slice());
    if query.len() == 0 {
        return Err(ArgError::QueryEmpty);
    }
    let query = text::string_of(query);
    match &args.expected_root {
        Field::Absent => Ok((query, None)),
        Field::Wrong => Err(ArgError::RootNotText),
        Field::Is(root) => {
            let chars = text::chars_of(root.as_str());
            if chars.len() > 0 && chars[0] == '/' {
                Ok((query, Some(owned(root.as_str()))))
            } else {
                Err(ArgError::RootNotAbsolute)
            }
        },
    }
}

/// What a client is told that expects another repository.
pub open spec fn mismatch_text(expected: Seq<char>, root: Seq<char>) -> Seq<char> {
    "MCP root mismatch: this server serves "@ + root + "; requested "@ + expected
        + ". Connect a server for the requested repository or use hips search --root."@
}

/// Is the repository the one that the client expects? Both paths are resolved.
/// If it is not, the client is told so.
pub fn check_root(expected: &str, root: &str) -> (r: Result<(), String>)
    ensures
        r is Ok <==> expected@ == root@,
        r matches Err(t) ==> t@ == mismatch_text(expected@, root@),
{
    if is_text(expected, root) {
        Ok(())
    } else {
        let mut out: Vec<char> = Vec::new();
        text::append_str(&mut out, "MCP root mismatch: this server serves ");
        text::append_str(&mut out, root);
        text::append_str(&mut out, "; requested ");
        text::append_str(&mut out, expected);
        text::append_str(
            &mut out,
            ". Connect a server for the requested repository or use hips search --root.",
        );
        assert(out@ =~= mismatch_text(expected@, root@));
        Err(text::string_of(out.as_slice()))
    }
}

/// The other options of a search.
pub struct SearchRequest {
    pub top_k: usize,
    pub include_snippet: bool,
    pub path_glob: Option<String>,
    pub mode: Option<Mode>,
}

/// What a [`SearchRequest`] holds.
pub struct RequestModel {
    pub top_k: int,
    pub include_snippet: bool,
    pub path_glob: Option<Seq<char>>,
    pub mode: Option<Mode>,
}

impl View for SearchRequest {
    type V = RequestModel;

    open spec fn view(&self) -> RequestModel {
        RequestModel {
            top_k: self.top_k as int,
            include_snippet: self.include_snippet,
            path_glob: json::opt(self.path_glob),
            mode: self.mode,
        }
    }
}

/// `n`, but at least 1 and at most the most results of a search.
pub open spec fn clamped(n: int) -> int {
    if n < 1 {
        1
    } else if n > MAX_TOP_K {
        MAX_TOP_K as int
    } else {
        n
    }
}

pub fn clamp_top_k(n: usize) -> (k: usize)
    ensures
        k == clamped(n as int),
{
    if n < 1 {
        1
    } else if n > MAX_TOP_K {
        MAX_TOP_K
    } else {
        n
    }
}

/// The mode of that name.
pub open spec fn mode_named(name: Seq<char>) -> Option<Mode> {
    if name == "hybrid"@ {
        Some(Mode::Hybrid)
    } else if name == "semantic"@ {
        Some(Mode::Semantic)
    } else if name == "lexical"@ {
        Some(Mode::Lexical)
    } else {
        None
    }
}

/// The options that these arguments spell, or the first thing wrong with
/// them.
pub open spec fn options_of(
    top_k: Field<u64>,
    include_snippet: Field<bool>,
    path_glob: Field<Seq<char>>,
    mode: Field<Seq<char>>,
    default_top_k: int,
) -> Result<RequestModel, ArgError> {
    let bad_top_k = match top_k {
        Field::Absent => false,
        Field::Wrong => true,
        Field::Is(k) => !(1 <= k <= MAX_TOP_K),
    };
    let bad_mode = match mode {
        Field::Absent => false,
        Field::Wrong => true,
        Field::Is(name) => mode_named(name) is None,
    };
    if bad_top_k {
        Err(ArgError::TopK)
    } else if include_snippet is Wrong {
        Err(ArgError::IncludeSnippet)
    } else if path_glob is Wrong {
        Err(ArgError::PathGlob)
    } else if bad_mode {
        Err(ArgError::UnknownMode)
    } else {
        Ok(
            RequestModel {
                top_k: match top_k {
                    Field::Is(k) => k as int,
                    _ => clamped(default_top_k),
                },
                include_snippet: include_snippet == Field::Is(true),
                path_glob: match path_glob {
                    Field::Is(g) => Some(g),
                    _ => None,
                },
                mode: match mode {
                    Field::Is(name) => mode_named(name),
                    _ => None,
                },
            },
        )
    }
}

/// Check the other options of a search.
pub fn search_options(args: &SearchArgs, default_top_k: usize) -> (r: Result<
    SearchRequest,
    ArgError,
>)
    ensures
        match r {
            Ok(q) => options_of(
                args.top_k,
                args.include_snippet,
                json::text_of(args.path_glob),
                json::text_of(args.mode),
                default_top_k as int,
            ) == Ok::<RequestModel, ArgError>(q@),
            Err(e) => options_of(
                args.top_k,
                args.include_snippet,
                json::text_of(args.path_glob),
                json::text_of(args.mode),
                default_top_k as int,
            ) == Err::<RequestModel, ArgError>(e),
        },
{
    let top_k: usize = match &args.top_k {
        Field::Absent => clamp_top_k(default_top_k),
        Field::Wrong => {
            return Err(ArgError::TopK);
        },
        Field::Is(k) => {
            if *k < 1 || *k > MAX_TOP_K as u64 {
                return Err(ArgError::TopK);
            }
            *k as usize
        },
    };
    let include_snippet: bool = match &args.include_snippet {
        Field::Absent => false,
        Field::Wrong => {
            return Err(ArgError::IncludeSnippet);
        },
        Field::Is(b) => *b,
    };
    let path_glob: Option<String> = match &args.path_glob {
        Field::Absent => None,
        Field::Wrong => {
            return Err(ArgError::PathGlob);
        },
        Field::Is(g) => Some(owned(g.as_str())),
    };
    let mode: Option<Mode> = match &args.mode {
        Field::Absent => None,
        Field::Wrong => {
            return Err(ArgError::UnknownMode);
        },
        Field::Is(name) => {
            if is_text(name.as_str(), "hybrid") {
                Some(Mode::Hybrid)
            } else if is_text(name.as_str(), "semantic") {
                Some(Mode::Semantic)
            } else if is_text(name.as_str(), "lexical") {
                Some(Mode::Lexical)
            } else {
                return Err(ArgError::UnknownMode);
            }
        },
    };
    Ok(SearchRequest { top_k, include_snippet, path_glob, mode })
}

/// How many results to fetch: more than asked for where a path filter will
/// drop some.
pub fn fetch_count(top_k: usize, filtered: bool) -> (n: usize)
    requires
        top_k <= MAX_TOP_K,
    ensures
        n == if !filtered {
            top_k as int
        } else if 8 * top_k < MAX_FETCH {
            8 * top_k
        } else {
            MAX_FETCH as int
        },
{
    if !filtered {
        top_k
    } else if 8 * top_k < MAX_FETCH {
        8 * top_k
    } else {
        MAX_FETCH
    }
}

/// The mode that a search runs in: the one asked for, or the best there is.
pub fn effective_mode(asked: Option<Mode>, hybrid: bool) -> (m: Mode)
    ensures
        m == match asked {
            Some(a) => a,
            None => if hybrid {
                Mode::Hybrid
            } else {
                Mode::Lexical
            },
        },
{
    match asked {
        Some(a) => a,
        None => {
            if hybrid {
                Mode::Hybrid
            } else {
                Mode::Lexical
            }
        },
    }
}

/// How a search is carried out.
#[derive(Clone, Copy, PartialEq, Eq, Debug, Structural)]
pub enum Retrieval {
    Lexical,
    Ranked(RankMode),
    /// Vectors were asked for and there are none.
    Disabled,
}

/// A search with vectors never falls back to a lexical one by itself.
pub fn retrieval(asked: Option<Mode>, hybrid: bool) -> (r: Retrieval)
    ensures
        r == if asked == Some(Mode::Lexical) || (asked is None && !hybrid) {
            Retrieval::Lexical
        } else if !hybrid {
            Retrieval::Disabled
        } else if asked == Some(Mode::Semantic) {
            Retrieval::Ranked(RankMode::Semantic)
        } else {
            Retrieval::Ranked(RankMode::Hybrid)
        },
{
    match effective_mode(asked, hybrid) {
        Mode::Lexical => Retrieval::Lexical,
        Mode::Semantic => {
            if hybrid {
                Retrieval::Ranked(RankMode::Semantic)
            } else {
                Retrieval::Disabled
            }
        },
        Mode::Hybrid => {
            if hybrid {
                Retrieval::Ranked(RankMode::Hybrid)
            } else {
                Retrieval::Disabled
            }
        },
    }
}

// ---------------------------------------------------------------------------
// Hits
// ---------------------------------------------------------------------------

/// One search hit, resolved back to a source location.
pub struct Hit {
    pub id: String,
    pub path: String,
    pub start_line: usize,
    pub end_line: usize,
    pub name: Option<String>,
    pub score: i64,
    /// The lexical and the semantic score, where the mode has both.
    pub components: Option<(u64, i32)>,
}

/// The last `::` of `s` stands at `i`.
pub open spec fn last_colons(s: Seq<char>, i: int) -> bool {
    &&& 0 <= i < s.len() - 1
    &&& s[i] == ':' && s[i + 1] == ':'
    &&& forall|k: int| i < k < s.len() - 1 ==> !(#[trigger] s[k] == ':' && s[k + 1] == ':')
}

/// The declaration name in a title: what follows the last `::`.
pub open spec fn is_title_name(title: Seq<char>, name: Option<Seq<char>>) -> bool {
    match name {
        Some(n) => exists|i: int| #[trigger] last_colons(title, i) && n == title.skip(i + 2),
        None => forall|i: int| !#[trigger] last_colons(title, i),
    }
}

proof fn lemma_no_colons(s: Seq<char>, n: int)
    requires
        forall|k: int| 0 <= k < s.len() - 1 ==> !(#[trigger] s[k] == ':' && s[k + 1] == ':'),
    ensures
        !last_colons(s, n),
{
}

fn title_name(title: &str) -> (r: Option<String>)
    ensures
        is_title_name(title@, json::opt(r)),
{
    let s = text::chars_of(title);
    let n: usize = s.len();
    let mut i: usize = n;
    while i > 1
        invariant
            i <= n,
            n == s@.len(),
            s@ == title@,
            forall|k: int| i <= k + 1 < n && 0 <= k ==> !(#[trigger] s@[k] == ':' && s@[k + 1] == ':'),
        decreases i,
    {
        if s[i - 2] == ':' && s[i - 1] == ':' {
            let rest: &[char] = slice_subrange(s.as_slice(), i, n);
            assert(rest@ =~= title@.skip(i as int));
            assert(last_colons(title@, i - 2));
            return Some(text::string_of(rest));
        }
        i -= 1;
    }
    assert forall|k: int| !#[trigger] last_colons(title@, k) by {
        lemma_no_colons(title@, k);
    }
    None
}

impl Hit {
    /// The hit of a document. One whose id is no location is skipped.
    pub fn new(id: String, title: String, score: i64, components: Option<(u64, i32)>) -> (r: Option<
        Hit,
    >)
        ensures
            r is None ==> forall|path: Seq<char>, start: nat, end: nat|
                !chunk::is_location(id@, path, start, end),
            r matches Some(h) ==> {
                &&& h.id == id
                &&& chunk::is_location(id@, h.path@, h.start_line as nat, h.end_line as nat)
                &&& is_title_name(title@, json::opt(h.name))
                &&& h.score == score
                &&& h.components == components
            },
    {
        let (path, start_line, end_line) = match chunk::parse_id(id.as_str()) {
            Some((p, s, e)) => (owned(p), s, e),
            None => {
                return None;
            },
        };
        let name = title_name(title.as_str());
        Some(Hit { id, path, start_line, end_line, name, score, components })
    }
}

/// Does the path pass the filter?
pub open spec fn passes(h: Hit, glob: Option<Seq<char>>) -> bool {
    match glob {
        Some(g) => ignore::matches_glob(encode_utf8(g), encode_utf8(h.path@)),
        None => true,
    }
}

/// Those of the first `n` hits that pass the filter, at most `k`.
pub open spec fn selected(hits: Seq<Hit>, glob: Option<Seq<char>>, k: nat, n: int) -> Seq<Hit>
    decreases n,
{
    if n <= 0 {
        Seq::empty()
    } else {
        let front = selected(hits, glob, k, n - 1);
        if front.len() < k && passes(hits[n - 1], glob) {
            front.push(hits[n - 1])
        } else {
            front
        }
    }
}

/// Filter hits by path and keep the first `top_k`.
pub fn select_hits(hits: Vec<Hit>, glob: Option<String>, top_k: usize) -> (out: Vec<Hit>)
    ensures
        out@ == selected(hits@, json::opt(glob), top_k as nat, hits@.len() as int),
{
    let ghost all = hits@;
    let ghost pattern = json::opt(glob);
    let n: usize = hits.len();
    // Reversed, so that the hits can be taken one by one from the back.
    let mut hits = hits;
    let mut stack: Vec<Hit> = Vec::new();
    while hits.len() > 0
        invariant
            n == all.len(),
            hits@.len() + stack@.len() == n,
            hits@ == all.take(hits@.len() as int),
            forall|j: int| 0 <= j < stack@.len() ==> #[trigger] stack@[j] == all[n - 1 - j],
        decreases hits@.len(),
    {
        if let Some(h) = hits.pop() {
            stack.push(h);
        }
    }
    let mut out: Vec<Hit> = Vec::new();
    let mut i: usize = 0;
    while i < n
        invariant
            i <= n,
            n == all.len(),
            pattern == json::opt(glob),
            stack@.len() == n - i,
            forall|j: int| 0 <= j < stack@.len() ==> #[trigger] stack@[j] == all[n - 1 - j],
            out@ == selected(all, pattern, top_k as nat, i as int),
        decreases n - i,
    {
        if let Some(h) = stack.pop() {
            assert(h == all[i as int]);
            let keep: bool = out.len() < top_k && match &glob {
                Some(g) => ignore::glob_match(g.as_str(), h.path.as_str()),
                None => true,
            };
            if keep {
                out.push(h);
            }
        }
        i += 1;
    }
    out
}

/// The code fence language of a file.
pub open spec fn language(ext: Option<Seq<char>>) -> Seq<char> {
    match ext {
        None => ""@,
        Some(e) => if e == "rs"@ {
            "rust"@
        } else if e == "py"@ {
            "python"@
        } else if e == "js"@ || e == "mjs"@ || e == "cjs"@ {
            "javascript"@
        } else if e == "jsx"@ {
            "jsx"@
        } else if e == "ts"@ {
            "typescript"@
        } else if e == "tsx"@ {
            "tsx"@
        } else if e == "go"@ {
            "go"@
        } else if e == "java"@ {
            "java"@
        } else if e == "kt"@ || e == "kts"@ {
            "kotlin"@
        } else if e == "rb"@ {
            "ruby"@
        } else if e == "c"@ || e == "h"@ {
            "c"@
        } else if e == "cpp"@ || e == "cc"@ || e == "cxx"@ || e == "hpp"@ || e == "hh"@ {
            "cpp"@
        } else if e == "cs"@ {
            "csharp"@
        } else if e == "swift"@ {
            "swift"@
        } else if e == "scala"@ {
            "scala"@
        } else if e == "php"@ {
            "php"@
        } else if e == "sh"@ || e == "bash"@ || e == "zsh"@ {
            "bash"@
        } else if e == "sql"@ {
            "sql"@
        } else if e == "md"@ {
            "markdown"@
        } else if e == "toml"@ {
            "toml"@
        } else if e == "yaml"@ || e == "yml"@ {
            "yaml"@
        } else {
            ""@
        },
    }
}

/// What follows the last dot.
pub open spec fn extension(path: Seq<char>) -> Option<Seq<char>>
    decreases path.len(),
{
    if path.len() == 0 {
        None
    } else if path.last() == '.' {
        Some(Seq::empty())
    } else {
        match extension(path.drop_last()) {
            Some(e) => Some(e.push(path.last())),
            None => None,
        }
    }
}

proof fn lemma_extension(path: Seq<char>, dot: int)
    requires
        text::last_at(path, '.', dot),
    ensures
        extension(path) == Some(path.skip(dot + 1)),
    decreases path.len(),
{
    if dot == path.len() - 1 {
        assert(path.skip(dot + 1) =~= Seq::<char>::empty());
    } else {
        assert(path.last() == path[path.len() - 1]);
        let front = path.drop_last();
        assert(text::last_at(front, '.', dot)) by {
            assert forall|k: int| dot < k < front.len() implies #[trigger] front[k] != '.' by {
                assert(path[k] != '.');
            }
        }
        lemma_extension(front, dot);
        assert(front.skip(dot + 1).push(path.last()) =~= path.skip(dot + 1));
    }
}

proof fn lemma_no_extension(path: Seq<char>)
    requires
        text::free_before(path, '.', path.len() as int),
    ensures
        extension(path) is None,
    decreases path.len(),
{
    if path.len() > 0 {
        assert(path[path.len() - 1] != '.');
        let front = path.drop_last();
        assert forall|k: int| 0 <= k < front.len() implies #[trigger] front[k] != '.' by {
            assert(path[k] != '.');
        }
        lemma_no_extension(front);
    }
}

/// The language that a snippet of the file is fenced as.
pub fn language_for(path: &str) -> (lang: &'static str)
    ensures
        lang@ == language(extension(path@)),
{
    let p = text::chars_of(path);
    let n: usize = p.len();
    let dot: usize = match text::rfind(p.as_slice(), '.') {
        Some(d) => d,
        None => {
            proof {
                lemma_no_extension(p@);
            }
            return "";
        },
    };
    proof {
        lemma_extension(p@, dot as int);
    }
    let e: &[char] = slice_subrange(p.as_slice(), dot + 1, n);
    assert(e@ =~= p@.skip(dot + 1));
    if text::is(e, "rs") {
        "rust"
    } else if text::is(e, "py") {
        "python"
    } else if text::is(e, "js") || text::is(e, "mjs") || text::is(e, "cjs") {
        "javascript"
    } else if text::is(e, "jsx") {
        "jsx"
    } else if text::is(e, "ts") {
        "typescript"
    } else if text::is(e, "tsx") {
        "tsx"
    } else if text::is(e, "go") {
        "go"
    } else if text::is(e, "java") {
        "java"
    } else if text::is(e, "kt") || text::is(e, "kts") {
        "kotlin"
    } else if text::is(e, "rb") {
        "ruby"
    } else if text::is(e, "c") || text::is(e, "h") {
        "c"
    } else if text::is(e, "cpp") || text::is(e, "cc") || text::is(e, "cxx") || text::is(e, "hpp")
        || text::is(e, "hh") {
        "cpp"
    } else if text::is(e, "cs") {
        "csharp"
    } else if text::is(e, "swift") {
        "swift"
    } else if text::is(e, "scala") {
        "scala"
    } else if text::is(e, "php") {
        "php"
    } else if text::is(e, "sh") || text::is(e, "bash") || text::is(e, "zsh") {
        "bash"
    } else if text::is(e, "sql") {
        "sql"
    } else if text::is(e, "md") {
        "markdown"
    } else if text::is(e, "toml") {
        "toml"
    } else if text::is(e, "yaml") || text::is(e, "yml") {
        "yaml"
    } else {
        ""
    }
}

// ---------------------------------------------------------------------------
// Answers
// ---------------------------------------------------------------------------

/// How a text is quoted in an answer.
pub uninterp spec fn quoted(s: Seq<char>) -> Seq<char>;

/// The `Debug` form of a `str`: in quotes, with special characters escaped.
#[verifier::external_body]
fn quote(s: &str) -> (q: String)
    ensures
        q@ == quoted(s@),
{
    format!("{s:?}")
}

/// `s` if there is more than one thing.
pub open spec fn plural(n: nat) -> Seq<char> {
    if n == 1 {
        ""@
    } else {
        "s"@
    }
}

/// A snippet in a code fence.
pub open spec fn fenced(lang: Seq<char>, snippet: Seq<char>) -> Seq<char> {
    "\n```"@ + lang + "\n"@ + snippet + "\n```\n"@
}

/// The name behind a location, if there is one.
pub open spec fn name_part(h: Hit) -> Seq<char> {
    match h.name {
        Some(n) => "  "@ + n@,
        None => Seq::empty(),
    }
}

/// One hit: its rank and location, its name, and its snippet if there is one.
pub open spec fn hit_text(rank: nat, h: Hit, snippet: Option<Seq<char>>) -> Seq<char> {
    text::decimal(rank) + ". "@ + chunk::id_text(h.path@, h.start_line as nat, h.end_line as nat)
        + name_part(h) + "\n"@ + (match snippet {
        Some(s) => fenced(language(extension(h.path@)), s),
        None => Seq::empty(),
    }) + "\n"@
}

/// The first `n` hits.
pub open spec fn hits_text(hits: Seq<Hit>, snippets: Seq<Option<String>>, n: int) -> Seq<char>
    decreases n,
{
    if n <= 0 {
        Seq::empty()
    } else {
        hits_text(hits, snippets, n - 1) + hit_text(n as nat, hits[n - 1], json::opt(snippets[n - 1]))
    }
}

/// The list of hits.
pub open spec fn listing(
    query: Seq<char>,
    root: Seq<char>,
    hits: Seq<Hit>,
    snippets: Seq<Option<String>>,
) -> Seq<char> {
    text::decimal(hits.len()) + " result"@ + plural(hits.len()) + " for "@ + quoted(query) + " in "@
        + root + ":\n\n"@ + hits_text(hits, snippets, hits.len() as int)
}

fn push_hit(out: &mut Vec<char>, rank: usize, h: &Hit, snippet: &Option<String>)
    ensures
        final(out)@ == old(out)@ + hit_text(rank as nat, *h, json::opt(*snippet)),
{
    let ghost start = out@;
    text::push_decimal(out, rank as u64);
    text::append_str(out, ". ");
    text::append_str(out, h.path.as_str());
    out.push(':');
    text::push_decimal(out, h.start_line as u64);
    out.push('-');
    text::push_decimal(out, h.end_line as u64);
    if let Some(name) = &h.name {
        text::append_str(out, "  ");
        text::append_str(out, name.as_str());
    }
    text::append_str(out, "\n");
    let ghost head = out@;
    proof {
        assert(head =~= start + (text::decimal(rank as nat) + ". "@ + chunk::id_text(
            h.path@,
            h.start_line as nat,
            h.end_line as nat,
        ) + name_part(*h) + "\n"@));
    }
    if let Some(body) = snippet {
        text::append_str(out, "\n```");
        text::append_str(out, language_for(h.path.as_str()));
        text::append_str(out, "\n");
        text::append_str(out, body.as_str());
        text::append_str(out, "\n```\n");
        assert(out@ =~= head + fenced(language(extension(h.path@)), body@));
    }
    text::append_str(out, "\n");
    assert(out@ =~= start + hit_text(rank as nat, *h, json::opt(*snippet)));
}

/// The list of hits, each with its snippet where one is given.
pub fn render(query: &str, root: &str, hits: &Vec<Hit>, snippets: &Vec<Option<String>>) -> (t:
    String)
    requires
        snippets@.len() == hits@.len(),
    ensures
        t@ == listing(query@, root@, hits@, snippets@),
{
    let n: usize = hits.len();
    let mut out: Vec<char> = Vec::new();
    text::push_decimal(&mut out, n as u64);
    text::append_str(&mut out, " result");
    if n == 1 {
        text::append_str(&mut out, "");
    } else {
        text::append_str(&mut out, "s");
    }
    text::append_str(&mut out, " for ");
    let q = quote(query);
    text::append_str(&mut out, q.as_str());
    text::append_str(&mut out, " in ");
    text::append_str(&mut out, root);
    text::append_str(&mut out, ":\n\n");
    let ghost head = out@;
    assert(head =~= text::decimal(n as nat) + " result"@ + plural(n as nat) + " for "@ + quoted(
        query@,
    ) + " in "@ + root@ + ":\n\n"@);
    let mut i: usize = 0;
    assert(head + hits_text(hits@, snippets@, 0) =~= head);
    while i < n
        invariant
            i <= n,
            n == hits@.len(),
            n == snippets@.len(),
            out@ == head + hits_text(hits@, snippets@, i as int),
        decreases n - i,
    {
        push_hit(&mut out, i + 1, &hits[i], &snippets[i]);
        i += 1;
        assert(out@ =~= head + hits_text(hits@, snippets@, i as int));
    }
    assert(out@ =~= listing(query@, root@, hits@, snippets@));
    text::string_of(out.as_slice())
}

/// Where nothing matched.
pub open spec fn nothing_found(query: Seq<char>, root: Seq<char>, glob: Option<Seq<char>>) -> Seq<
    char,
> {
    "No matches for "@ + quoted(query) + " in "@ + root + (match glob {
        Some(g) => " under `"@ + g + "`"@,
        None => Seq::empty(),
    }) + ".\n"@
}

/// What was repaired before the search.
pub open spec fn repair_note(repaired: nat) -> Seq<char> {
    if repaired > 0 {
        "Reindexed "@ + text::decimal(repaired)
            + " invalid document embeddings before searching.\n"@
    } else {
        Seq::empty()
    }
}

/// Said where a semantic search runs on another backend than the first choice.
pub open spec fn fallback_note(fell_back: bool) -> Seq<char> {
    if fell_back {
        "Note: CoreML unavailable; using Candle (semantic search retained). Use verbose=true for details.\n"@
    } else {
        Seq::empty()
    }
}

/// What is said of a search before its hits.
pub open spec fn preamble(mode: Mode, repaired: nat, fell_back: bool) -> Seq<char> {
    "Retrieval: "@ + mode_text(mode) + "\n"@ + repair_note(repaired) + fallback_note(
        fell_back && mode != Mode::Lexical,
    )
}

fn push_preamble(out: &mut Vec<char>, mode: Mode, repaired: usize, fell_back: bool)
    ensures
        final(out)@ == old(out)@ + preamble(mode, repaired as nat, fell_back),
{
    let ghost start = out@;
    text::append_str(out, "Retrieval: ");
    match mode {
        Mode::Hybrid => {
            text::append_str(out, "hybrid");
        },
        Mode::Semantic => {
            text::append_str(out, "semantic");
        },
        Mode::Lexical => {
            text::append_str(out, "lexical");
        },
    }
    text::append_str(out, "\n");
    let ghost first = out@;
    assert(first =~= start + ("Retrieval: "@ + mode_text(mode) + "\n"@));
    if repaired > 0 {
        text::append_str(out, "Reindexed ");
        text::push_decimal(out, repaired as u64);
        text::append_str(out, " invalid document embeddings before searching.\n");
    }
    let ghost second = out@;
    assert(second =~= first + repair_note(repaired as nat));
    if fell_back && mode != Mode::Lexical {
        text::append_str(
            out,
            "Note: CoreML unavailable; using Candle (semantic search retained). Use verbose=true for details.\n",
        );
    }
    assert(out@ =~= second + fallback_note(fell_back && mode != Mode::Lexical));
    assert(out@ =~= start + preamble(mode, repaired as nat, fell_back));
}

fn push_nothing_found(out: &mut Vec<char>, query: &str, root: &str, glob: &Option<String>)
    ensures
        final(out)@ == old(out)@ + nothing_found(query@, root@, json::opt(*glob)),
{
    let ghost start = out@;
    text::append_str(out, "No matches for ");
    let q = quote(query);
    text::append_str(out, q.as_str());
    text::append_str(out, " in ");
    text::append_str(out, root);
    if let Some(g) = glob {
        text::append_str(out, " under `");
        text::append_str(out, g.as_str());
        text::append_str(out, "`");
    }
    text::append_str(out, ".\n");
    assert(out@ =~= start + nothing_found(query@, root@, json::opt(*glob)));
}

/// The answer of a search.
pub open spec fn answer_text(
    mode: Mode,
    repaired: nat,
    fell_back: bool,
    query: Seq<char>,
    root: Seq<char>,
    glob: Option<Seq<char>>,
    hits: Seq<Hit>,
    snippets: Seq<Option<String>>,
) -> Seq<char> {
    preamble(mode, repaired, fell_back) + (if hits.len() == 0 {
        nothing_found(query, root, glob)
    } else {
        listing(query, root, hits, snippets)
    })
}

/// The text that answers a search.
pub fn search_answer(
    mode: Mode,
    repaired: usize,
    fell_back: bool,
    query: &str,
    root: &str,
    glob: &Option<String>,
    hits: &Vec<Hit>,
    snippets: &Vec<Option<String>>,
) -> (t: String)
    requires
        snippets@.len() == hits@.len(),
    ensures
        t@ == answer_text(
            mode,
            repaired as nat,
            fell_back,
            query@,
            root@,
            json::opt(*glob),
            hits@,
            snippets@,
        ),
{
    let mut out: Vec<char> = Vec::new();
    push_preamble(&mut out, mode, repaired, fell_back);
    if hits.len() == 0 {
        push_nothing_found(&mut out, query, root, glob);
    } else {
        let list = render(query, root, hits, snippets);
        text::append_str(&mut out, list.as_str());
    }
    text::string_of(out.as_slice())
}

/// A machine-readable description of a failure.
pub struct Problem {
    pub code: String,
    pub message: String,
    pub action: String,
    pub cause: String,
}

/// The answer of a tool: its texts, and what a machine can read of it.
pub struct ToolReply {
    pub content: Vec<String>,
    pub is_error: bool,
    pub problem: Option<Problem>,
    pub diagnostics: Option<String>,
}

/// The answer of a tool that failed because of `cause`. A full disk is
/// something that the client can act on, and is told apart.
pub fn tool_failure(cause: &str, storage_full: bool) -> (r: ToolReply)
    ensures
        r.is_error,
        r.content@.len() == 1,
        r.diagnostics is None,
        !storage_full ==> r.content@[0]@ == cause@ && r.problem is None,
        storage_full ==> {
            &&& r.content@[0]@ == "Not enough disk space."@ + " "@
                + "Free space on the affected filesystem, then retry."@ + "\nCause: "@ + cause@
            &&& r.problem matches Some(p) && {
                &&& p.code@ == "insufficient_disk_space"@
                &&& p.message@ == "Not enough disk space."@
                &&& p.action@ == "Free space on the affected filesystem, then retry."@
                &&& p.cause@ == cause@
            }
        },
{
    let mut content: Vec<String> = Vec::new();
    if !storage_full {
        content.push(owned(cause));
        return ToolReply { content, is_error: true, problem: None, diagnostics: None };
    }
    let mut out = text::chars_of("Not enough disk space.");
    text::append_str(&mut out, " ");
    text::append_str(&mut out, "Free space on the affected filesystem, then retry.");
    text::append_str(&mut out, "\nCause: ");
    text::append_str(&mut out, cause);
    content.push(text::string_of(out.as_slice()));
    ToolReply {
        content,
        is_error: true,
        diagnostics: None,
        problem: Some(
            Problem {
                code: owned("insufficient_disk_space"),
                message: owned("Not enough disk space."),
                action: owned("Free space on the affected filesystem, then retry."),
                cause: owned(cause),
            },
        ),
    }
}

impl ToolReply {
    /// The answer of a tool that did what it was asked.
    pub fn success(text: String) -> (r: ToolReply)
        ensures
            !r.is_error,
            r.content@.len() == 1,
            r.content@[0]@ == text@,
            r.problem is None,
            r.diagnostics is None,
    {
        let mut content: Vec<String> = Vec::new();
        content.push(text);
        ToolReply { content, is_error: false, problem: None, diagnostics: None }
    }

    /// Add what was found out about the server, given as formatted JSON. What
    /// the answer already says stays.
    pub fn append_diagnostics(&mut self, pretty: String)
        ensures
            final(self).is_error == old(self).is_error,
            final(self).problem == old(self).problem,
            final(self).diagnostics matches Some(d) && d@ == pretty@,
            final(self).content@.len() == old(self).content@.len() + 1,
            final(self).content@.drop_last() == old(self).content@,
            final(self).content@.last()@ == "Debug diagnostics:\n"@ + pretty@,
    {
        let mut out = text::chars_of("Debug diagnostics:\n");
        text::append_str(&mut out, pretty.as_str());
        self.content.push(text::string_of(out.as_slice()));
        self.diagnostics = Some(pretty);
        assert(self.content@.drop_last() =~= old(self).content@);
    }
}

/// The modes that a client can choose from.
pub fn search_modes(hybrid: bool) -> (modes: Vec<Mode>)
    ensures
        modes@ == if hybrid {
            seq![Mode::Hybrid, Mode::Lexical, Mode::Semantic]
        } else {
            seq![Mode::Lexical]
        },
{
    let mut modes: Vec<Mode> = Vec::new();
    if hybrid {
        modes.push(Mode::Hybrid);
        modes.push(Mode::Lexical);
        modes.push(Mode::Semantic);
    } else {
        modes.push(Mode::Lexical);
    }
    assert(modes@ =~= if hybrid {
        seq![Mode::Hybrid, Mode::Lexical, Mode::Semantic]
    } else {
        seq![Mode::Lexical]
    });
    modes
}

impl Mode {
    /// The name of the mode.
    pub fn name(&self) -> (s: &'static str)
        ensures
            s@ == mode_text(*self),
    {
        match self {
            Mode::Hybrid => "hybrid",
            Mode::Semantic => "semantic",
            Mode::Lexical => "lexical",
        }
    }
}

// ---------------------------------------------------------------------------
// Freshness
// ---------------------------------------------------------------------------

/// What has to be done to the index before a search.
#[derive(Clone, Copy, PartialEq, Eq, Debug, Structural)]
pub enum Refresh {
    /// Build it, and report with [`Server::rebuilt`].
    Rebuild,
    /// Open what someone else has built, and report with
    /// [`Server::reopened`].
    Reopen,
    Keep,
}

/// What a server knows of its index.
pub struct Server {
    /// Is an index open?
    pub has_index: bool,
    /// Has the open index vectors?
    pub embedded: bool,
    /// Is this server configured to use vectors?
    pub embed: bool,
    pub rebuilds: u64,
    /// A change was seen that the index does not have yet.
    pub refresh_pending: bool,
}

impl Server {
    /// A server with the index that was found, if there was one.
    pub fn start(has_index: bool, embedded: bool, embed: bool) -> (s: Server)
        ensures
            s == (Server { has_index, embedded, embed, rebuilds: 0, refresh_pending: false }),
    {
        Server { has_index, embedded, embed, rebuilds: 0, refresh_pending: false }
    }

    pub open spec fn hybrid(&self) -> bool {
        self.embedded && self.embed
    }

    pub fn hybrid_enabled(&self) -> (r: bool)
        ensures
            r == self.hybrid(),
    {
        self.embedded && self.embed
    }

    /// What to do before answering. `recovery` says that an earlier build was
    /// interrupted, `dirty` that the tree changed, `replaced` that the index
    /// on disk is not the open one.
    pub fn ensure_fresh(&mut self, recovery: bool, dirty: bool, replaced: bool) -> (r: Refresh)
        ensures
            r == refresh_for(*old(self), recovery, dirty, replaced),
            *final(self) == after_look(*old(self), r),
    {
        if self.refresh_pending || recovery || dirty || !self.has_index {
            self.refresh_pending = true;
            return Refresh::Rebuild;
        }
        if replaced {
            return Refresh::Reopen;
        }
        Refresh::Keep
    }

    /// A build succeeded.
    pub fn rebuilt(&mut self, embedded: bool)
        requires
            old(self).rebuilds < u64::MAX,
        ensures
            *final(self) == (Server {
                has_index: true,
                embedded,
                embed: old(self).embed,
                rebuilds: (old(self).rebuilds + 1) as u64,
                refresh_pending: false,
            }),
    {
        self.has_index = true;
        self.embedded = embedded;
        self.rebuilds = self.rebuilds + 1;
        self.refresh_pending = false;
    }

    /// The index on disk was opened again.
    pub fn reopened(&mut self, embedded: bool)
        ensures
            *final(self) == (Server { has_index: true, embedded, ..*old(self) }),
    {
        self.has_index = true;
        self.embedded = embedded;
    }

    /// Are there vectors to repair before a search that uses them?
    pub fn repair_needed(&self, uses_vectors: bool, invalid: usize) -> (r: bool)
        ensures
            r == (uses_vectors && self.hybrid() && invalid > 0),
    {
        uses_vectors && self.embedded && self.embed && invalid > 0
    }
}

/// What is to be done before answering.
pub open spec fn refresh_for(s: Server, recovery: bool, dirty: bool, replaced: bool) -> Refresh {
    if s.refresh_pending || recovery || dirty || !s.has_index {
        Refresh::Rebuild
    } else if replaced {
        Refresh::Reopen
    } else {
        Refresh::Keep
    }
}

/// The server after it was asked what to do. A change that was seen is not
/// forgotten before a build has taken it in.
pub open spec fn after_look(s: Server, r: Refresh) -> Server {
    Server { refresh_pending: s.refresh_pending || r == Refresh::Rebuild, ..s }
}

/// A refresh that failed is tried again before anything is answered: until a
/// build succeeds every further look asks for one, whatever it sees.
pub proof fn law_failed_refresh_is_retried(
    s: Server,
    recovery: bool,
    dirty: bool,
    replaced: bool,
    later_recovery: bool,
    later_dirty: bool,
    later_replaced: bool,
)
    requires
        refresh_for(s, recovery, dirty, replaced) == Refresh::Rebuild,
    ensures
        ({
            let seen = after_look(s, Refresh::Rebuild);
            let next = refresh_for(seen, later_recovery, later_dirty, later_replaced);
            next == Refresh::Rebuild && after_look(seen, next) == seen
        }),
{
}

// ---------------------------------------------------------------------------
// What the server tells of itself
// ---------------------------------------------------------------------------

/// Milliseconds as seconds with two digits behind the point, rounded.
pub open spec fn seconds_text(ms: nat) -> Seq<char> {
    let hundredths = (ms + 5) / 10;
    text::decimal(hundredths / 100) + "."@ + text::two_digits(hundredths % 100) + "s"@
}

fn push_seconds(out: &mut Vec<char>, ms: u64)
    ensures
        final(out)@ == old(out)@ + seconds_text(ms as nat),
{
    let ghost start = out@;
    let hundredths: u64 = ms / 10 + (ms % 10 + 5) / 10;
    assert(hundredths == (ms + 5) / 10);
    text::push_decimal(out, hundredths / 100);
    text::append_str(out, ".");
    text::push_two(out, hundredths % 100);
    text::append_str(out, "s");
    assert(out@ =~= start + seconds_text(ms as nat));
}

/// How the index is kept current: what a watcher has seen, and whether that
/// asks for a rebuild, if there is a watcher.
pub open spec fn freshness(watch: Option<(u64, bool)>) -> Seq<char> {
    match watch {
        Some((events, dirty)) => "watching (events seen: "@ + text::decimal(events as nat)
            + ", pending rebuild: "@ + (if dirty {
            "true"@
        } else {
            "false"@
        }) + ")"@,
        None => "not watching (call `reindex` after edits)"@,
    }
}

fn push_freshness(out: &mut Vec<char>, watch: Option<(u64, bool)>)
    ensures
        final(out)@ == old(out)@ + freshness(watch),
{
    let ghost start = out@;
    match watch {
        Some((events, dirty)) => {
            text::append_str(out, "watching (events seen: ");
            text::push_decimal(out, events);
            text::append_str(out, ", pending rebuild: ");
            if dirty {
                text::append_str(out, "true");
            } else {
                text::append_str(out, "false");
            }
            text::append_str(out, ")");
        },
        None => {
            text::append_str(out, "not watching (call `reindex` after edits)");
        },
    }
    assert(out@ =~= start + freshness(watch));
}

/// What the index can answer.
pub open spec fn capability(hybrid: bool) -> Seq<char> {
    if hybrid {
        "hybrid-capable index (BM25 + CodeRankEmbed vectors; encoder loads on demand)"@
    } else {
        "lexical (BM25, code tokenizer)"@
    }
}

/// The state of the index and of the server.
pub open spec fn status_of(
    m: Manifest,
    index_dir: Seq<char>,
    server: Server,
    encoder: Seq<char>,
    watch: Option<(u64, bool)>,
) -> Seq<char> {
    "root: "@ + m.root@ + "\nindex: "@ + index_dir + "\nchunks: "@ + text::decimal(
        m.num_docs as nat,
    ) + " from "@ + text::decimal(m.num_files as nat) + " files\nretrieval: "@ + capability(
        server.hybrid(),
    ) + "\nencoder: "@ + encoder + "\nfreshness: "@ + freshness(watch)
        + "\nrebuilds this session: "@ + text::decimal(server.rebuilds as nat)
        + "\nlast build: "@ + seconds_text(m.build_ms as nat) + " ("@ + text::decimal(
        m.encoded as nat,
    ) + " encoded, "@ + text::decimal(m.cached as nat) + " from cache)"@
}

/// The state of the index and of the server.
pub fn status_text(
    m: &Manifest,
    index_dir: &str,
    server: &Server,
    encoder: &str,
    watch: Option<(u64, bool)>,
) -> (t: String)
    ensures
        t@ == status_of(*m, index_dir@, *server, encoder@, watch),
{
    let mut out: Vec<char> = Vec::new();
    text::append_str(&mut out, "root: ");
    text::append_str(&mut out, m.root.as_str());
    text::append_str(&mut out, "\nindex: ");
    text::append_str(&mut out, index_dir);
    text::append_str(&mut out, "\nchunks: ");
    text::push_decimal(&mut out, m.num_docs as u64);
    text::append_str(&mut out, " from ");
    text::push_decimal(&mut out, m.num_files as u64);
    text::append_str(&mut out, " files\nretrieval: ");
    if server.hybrid_enabled() {
        text::append_str(
            &mut out,
            "hybrid-capable index (BM25 + CodeRankEmbed vectors; encoder loads on demand)",
        );
    } else {
        text::append_str(&mut out, "lexical (BM25, code tokenizer)");
    }
    text::append_str(&mut out, "\nencoder: ");
    text::append_str(&mut out, encoder);
    text::append_str(&mut out, "\nfreshness: ");
    push_freshness(&mut out, watch);
    text::append_str(&mut out, "\nrebuilds this session: ");
    text::push_decimal(&mut out, server.rebuilds);
    text::append_str(&mut out, "\nlast build: ");
    push_seconds(&mut out, m.build_ms);
    text::append_str(&mut out, " (");
    text::push_decimal(&mut out, m.encoded as u64);
    text::append_str(&mut out, " encoded, ");
    text::push_decimal(&mut out, m.cached as u64);
    text::append_str(&mut out, " from cache)");
    assert(out@ =~= status_of(*m, index_dir@, *server, encoder@, watch));
    text::string_of(out.as_slice())
}

/// A difference with its sign.
pub open spec fn signed(new: nat, old_count: nat) -> Seq<char> {
    if new < old_count {
        "-"@ + text::decimal((old_count - new) as nat)
    } else {
        "+"@ + text::decimal((new - old_count) as nat)
    }
}

/// What a rebuild came to, where the index had `before` chunks.
pub open spec fn rebuild_of(m: Manifest, before: nat) -> Seq<char> {
    "Rebuilt in "@ + seconds_text(m.build_ms as nat) + ": "@ + text::decimal(m.num_docs as nat)
        + " chunks ("@ + signed(m.num_docs as nat, before) + "), "@ + text::decimal(
        m.encoded as nat,
    ) + " encoded, "@ + text::decimal(m.cached as nat) + " reused from cache."@
}

/// What a rebuild came to, where the index had `before` chunks.
pub fn rebuild_text(m: &Manifest, before: usize) -> (t: String)
    ensures
        t@ == rebuild_of(*m, before as nat),
{
    let mut out: Vec<char> = Vec::new();
    text::append_str(&mut out, "Rebuilt in ");
    push_seconds(&mut out, m.build_ms);
    text::append_str(&mut out, ": ");
    text::push_decimal(&mut out, m.num_docs as u64);
    text::append_str(&mut out, " chunks (");
    if m.num_docs < before {
        text::append_str(&mut out, "-");
        text::push_decimal(&mut out, (before - m.num_docs) as u64);
    } else {
        text::append_str(&mut out, "+");
        text::push_decimal(&mut out, (m.num_docs - before) as u64);
    }
    text::append_str(&mut out, "), ");
    text::push_decimal(&mut out, m.encoded as u64);
    text::append_str(&mut out, " encoded, ");
    text::push_decimal(&mut out, m.cached as u64);
    text::append_str(&mut out, " reused from cache.");
    assert(out@ =~= rebuild_of(*m, before as nat));
    text::string_of(out.as_slice())
}

/// What is selected: hits that pass the filter, in their order; at most `k`,
/// and all of them if they are no more.
pub proof fn law_selected_hits(hits: Seq<Hit>, glob: Option<Seq<char>>, k: nat)
    ensures
        ({
            let out = selected(hits, glob, k, hits.len() as int);
            let all = hits.filter(
                |h: Hit|
                    glob is None || ignore::matches_glob(
                        encode_utf8(glob->Some_0),
                        encode_utf8(h.path@),
                    ),
            );
            out == if all.len() < k {
                all
            } else {
                all.take(k as int)
            }
        }),
{
    lemma_selected(hits, glob, k, hits.len() as int);
    assert(hits.take(hits.len() as int) =~= hits);
}

proof fn lemma_selected(hits: Seq<Hit>, glob: Option<Seq<char>>, k: nat, n: int)
    requires
        0 <= n <= hits.len(),
    ensures
        ({
            let out = selected(hits, glob, k, n);
            let all = hits.take(n).filter(
                |h: Hit|
                    glob is None || ignore::matches_glob(
                        encode_utf8(glob->Some_0),
                        encode_utf8(h.path@),
                    ),
            );
            out == if all.len() < k {
                all
            } else {
                all.take(k as int)
            }
        }),
    decreases n,
{
    reveal(Seq::filter);
    let f = |h: Hit|
        glob is None || ignore::matches_glob(encode_utf8(glob->Some_0), encode_utf8(h.path@));
    let all = hits.take(n).filter(f);
    if n > 0 {
        lemma_selected(hits, glob, k, n - 1);
        let front = hits.take(n - 1).filter(f);
        assert(hits.take(n).drop_last() =~= hits.take(n - 1));
        assert(hits.take(n).last() == hits[n - 1]);
        assert(passes(hits[n - 1], glob) == f(hits[n - 1]));
        if f(hits[n - 1]) {
            assert(all == front.push(hits[n - 1]));
            if front.len() < k {
                assert(all.len() >= k ==> all.take(k as int) =~= all);
            } else {
                assert(all.take(k as int) =~= front.take(k as int));
            }
        } else {
            assert(all == front);
        }
    } else {
        assert(hits.take(0) =~= Seq::<Hit>::empty());
        assert(all =~= Seq::<Hit>::empty());
        assert(k == 0 ==> all.take(0) =~= all);
    }
}

/// A request is answered with what it asks for where every field that it gives
/// is right: a count from one to fifty, a flag, a pattern, one of the three
/// modes. Any other field is named as wrong.
pub proof fn law_search_options(
    top_k: Field<u64>,
    include_snippet: Field<bool>,
    path_glob: Field<Seq<char>>,
    mode: Field<Seq<char>>,
    default_top_k: int,
)
    ensures
        ({
            let r = options_of(top_k, include_snippet, path_glob, mode, default_top_k);
            &&& r is Ok <==> {
                &&& top_k is Absent || (top_k matches Field::Is(k) && 1 <= k <= 50)
                &&& !(include_snippet is Wrong)
                &&& !(path_glob is Wrong)
                &&& mode is Absent || (mode matches Field::Is(m) && (m == "hybrid"@ || m
                    == "semantic"@ || m == "lexical"@))
            }
            &&& r matches Ok(q) ==> {
                &&& 1 <= q.top_k <= 50
                &&& top_k matches Field::Is(k) ==> q.top_k == k
                &&& top_k is Absent && 1 <= default_top_k <= 50 ==> q.top_k == default_top_k
                &&& q.include_snippet <==> include_snippet == Field::Is(true)
                &&& q.path_glob is Some <==> path_glob is Is
                &&& path_glob matches Field::Is(g) ==> q.path_glob == Some(g)
                &&& q.mode is Some <==> mode is Is
                &&& mode matches Field::Is(m) ==> q.mode matches Some(n) && mode_text(n) == m
            }
            &&& r == Err::<RequestModel, ArgError>(ArgError::IncludeSnippet) ==> include_snippet is Wrong
            &&& r == Err::<RequestModel, ArgError>(ArgError::PathGlob) ==> path_glob is Wrong
            &&& r == Err::<RequestModel, ArgError>(ArgError::TopK) ==> !(top_k is Absent)
            &&& r == Err::<RequestModel, ArgError>(ArgError::UnknownMode) ==> !(mode is Absent)
        }),
{
}

/// The extension of a file is what follows its last dot; without a dot there is
/// none.
pub proof fn law_extension(stem: Seq<char>, ext: Seq<char>)
    requires
        !ext.contains('.'),
    ensures
        extension(stem + seq!['.'] + ext) == Some(ext),
        extension(ext) is None,
    decreases ext.len(),
{
    let path = stem + seq!['.'] + ext;
    if ext.len() == 0 {
        assert(path.last() == '.');
        assert(ext =~= Seq::<char>::empty());
    } else {
        let front = ext.drop_last();
        assert(ext.contains(ext.last()));
        assert(!front.contains('.')) by {
            if front.contains('.') {
                let i = choose|i: int| 0 <= i < front.len() && front[i] == '.';
                assert(ext[i] == '.');
            }
        }
        law_extension(stem, front);
        assert(path.last() == ext.last());
        assert(path.drop_last() =~= stem + seq!['.'] + front);
        assert(front.push(ext.last()) =~= ext);
    }
}

/// The title of a chunk gives back the name of what it declares.
pub proof fn law_titles_give_back_names(path: Seq<char>, name: Seq<char>)
    requires
        name.len() > 0,
        !name.contains(':'),
    ensures
        is_title_name(path + "::"@ + name, Some(name)),
{
    reveal_strlit("::");
    let title = path + "::"@ + name;
    let i = path.len() as int;
    assert(last_colons(title, i)) by {
        assert forall|k: int| i < k < title.len() - 1 implies !(#[trigger] title[k] == ':' && title[k
            + 1] == ':') by {
            assert(title[k + 1] == name[k - i - 1]);
            assert(name.contains(name[k - i - 1]));
        }
    }
    assert(title.skip(i + 2) =~= name);
}

/// The index is rebuilt after a change, for want of one, after a crash and after
/// a failed rebuild, opened anew when another process replaced it, and kept
/// otherwise.
pub proof fn law_refresh(s: Server, recovery: bool, dirty: bool, replaced: bool)
    ensures
        dirty ==> refresh_for(s, recovery, dirty, replaced) == Refresh::Rebuild,
        recovery ==> refresh_for(s, recovery, dirty, replaced) == Refresh::Rebuild,
        !s.has_index ==> refresh_for(s, recovery, dirty, replaced) == Refresh::Rebuild,
        s.refresh_pending ==> refresh_for(s, recovery, dirty, replaced) == Refresh::Rebuild,
        s.has_index && !s.refresh_pending && !recovery && !dirty ==> refresh_for(
            s,
            recovery,
            dirty,
            replaced,
        ) == if replaced {
            Refresh::Reopen
        } else {
            Refresh::Keep
        },
{
}

/// Times are shown in seconds with two places, rounded to the nearest.
pub proof fn law_seconds(s: nat, h: nat, ms: nat)
    requires
        h < 100,
        1000 * s + 10 * h <= ms + 5,
        ms + 5 < 1000 * s + 10 * h + 10,
    ensures
        seconds_text(ms) == text::decimal(s) + "."@ + text::two_digits(h) + "s"@,
{
    assert((ms + 5) / 10 == 100 * s + h);
}

/// Hits are listed one after the other, counted from one, each with its path and
/// lines, then what it declares and its snippet where there is one.
pub proof fn law_listed_hits(hits: Seq<Hit>, snippets: Seq<Option<String>>, n: int)
    requires
        0 <= n < hits.len(),
        snippets.len() == hits.len(),
    ensures
        hits_text(hits, snippets, 0).len() == 0,
        ({
            let h = hits[n];
            let name = if h.name is Some {
                "  "@ + h.name->Some_0@
            } else {
                Seq::empty()
            };
            let snippet = if snippets[n] is Some {
                "\n```"@ + language(extension(h.path@)) + "\n"@ + snippets[n]->Some_0@ + "\n```\n"@
            } else {
                Seq::empty()
            };
            hits_text(hits, snippets, n + 1) == hits_text(hits, snippets, n) + (text::decimal(
                (n + 1) as nat,
            ) + ". "@ + (h.path@ + seq![':'] + text::decimal(h.start_line as nat) + seq!['-']
                + text::decimal(h.end_line as nat)) + name + "\n"@ + snippet + "\n"@)
        }),
{
}

/// An answer says how it searched, and then lists the hits or that there are
/// none.
pub proof fn law_answers(
    mode: Mode,
    query: Seq<char>,
    root: Seq<char>,
    hits: Seq<Hit>,
    snippets: Seq<Option<String>>,
)
    ensures
        hits.len() == 0 ==> answer_text(mode, 0, false, query, root, None, hits, snippets)
            =~= "Retrieval: "@ + mode_text(mode) + "\n"@ + ("No matches for "@ + quoted(query)
            + " in "@ + root + ".\n"@),
        hits.len() == 1 ==> answer_text(mode, 0, false, query, root, None, hits, snippets)
            =~= "Retrieval: "@ + mode_text(mode) + "\n"@ + (text::decimal(1) + " result"@ + " for "@
            + quoted(query) + " in "@ + root + ":\n\n"@ + hits_text(hits, snippets, 1)),
        hits.len() > 1 ==> answer_text(mode, 0, false, query, root, None, hits, snippets)
            =~= "Retrieval: "@ + mode_text(mode) + "\n"@ + (text::decimal(hits.len()) + " results"@
            + " for "@ + quoted(query) + " in "@ + root + ":\n\n"@ + hits_text(
            hits,
            snippets,
            hits.len() as int,
        )),
{
    reveal_strlit("");
    reveal_strlit("s");
    reveal_strlit(" result");
    reveal_strlit(" results");
    assert(" result"@ + "s"@ =~= " results"@);
    assert(" result"@ + ""@ =~= " result"@);
    let none = Seq::<char>::empty();
    let head = "Retrieval: "@ + mode_text(mode) + "\n"@;
    assert(head + none + none =~= head);
    assert(preamble(mode, 0, false) == head + none + none);
    let n = text::decimal(hits.len());
    assert(n + " result"@ + "s"@ =~= n + " results"@);
    assert(n + " result"@ + ""@ =~= n + " result"@);
    let miss = "No matches for "@ + quoted(query) + " in "@ + root;
    assert(miss + none =~= miss);
}

} // verus!
