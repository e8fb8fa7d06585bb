//! The server that offers the tools to other programs: what it answers to a request, and
//! what a call of a tool asks for.
use vstd::prelude::*;
use vstd::string::*;

use crate::json::{
    get, list, member, member_number, member_text, member_texts, member_true, members, members_view, number_at,
    object, opt_texts, text, text_at, texts_at, true_at, values_view, with, JsonValue, JsonView,
};
use crate::paths::{equal_paths, same_path};
use crate::text::{
    chars_of, dec, decimal, join, join_strings, lemma_strs_push, opt_str, opt_text, same_text, setting,
    setting_of, split, split_on, string_of, strs, trim, trim_of, views,
};

use self::tools::{
    defined_name, instructions, law_tools_offered, server_instructions, tool_definitions, tools,
};

pub mod tools;

verus! {

// ---------------------------------------------------------------------------
// Times
// ---------------------------------------------------------------------------

/// How many seconds a tool may take, where nothing else is set.
pub const REQUEST_SECONDS: u64 = 90;

/// How many seconds reading several files may take, where nothing else is set.
pub const BATCH_SECONDS: u64 = 60;

/// The number of threads that were given up from which on a warning is given.
pub const ABANDONED_THREAD_WARN: usize = 3;

/// How many seconds a tool may take.
pub fn request_timeout(given: Option<&str>) -> (r: u64)
    ensures
        r == setting(opt_str(given), u64::MAX as nat, REQUEST_SECONDS as nat),
{
    setting_of(given, u64::MAX, REQUEST_SECONDS)
}

/// How many seconds reading several files may take.
pub fn batch_timeout(given: Option<&str>) -> (r: u64)
    ensures
        r == setting(opt_str(given), u64::MAX as nat, BATCH_SECONDS as nat),
{
    setting_of(given, u64::MAX, BATCH_SECONDS)
}

/// What is answered where a tool took too long.
pub open spec fn timeout_text(seconds: nat) -> Seq<char> {
    "tool timed out after "@ + dec(seconds)
        + "s — the operation took too long. Try: reduce scope, use section instead of full, or set TILTH_TIMEOUT=<seconds> to increase the limit."@
}

/// What is answered where a tool took too long.
pub fn timeout_message(seconds: u64) -> (r: String)
    ensures
        r@ == timeout_text(seconds as nat),
{
    let mut s = "tool timed out after ".to_owned();
    s.append(decimal(seconds as u128).as_str());
    s.append(
        "s — the operation took too long. Try: reduce scope, use section instead of full, or set TILTH_TIMEOUT=<seconds> to increase the limit.",
    );
    s
}

/// What is answered where a tool broke down.
pub const TOOL_PANICKED: &'static str = "tool panicked during execution";

/// The warning where too many threads were given up.
pub open spec fn abandoned_text(n: nat) -> Option<Seq<char>> {
    if n >= ABANDONED_THREAD_WARN {
        Some(
            "tilth: warning: "@ + dec(n)
                + " abandoned threads still running. Consider reducing scope or increasing TILTH_TIMEOUT."@,
        )
    } else {
        None
    }
}

/// The warning where too many threads were given up.
pub fn abandoned_warning(n: usize) -> (r: Option<String>)
    ensures
        opt_text(r) == abandoned_text(n as nat),
{
    if n >= ABANDONED_THREAD_WARN {
        let mut s = "tilth: warning: ".to_owned();
        s.append(decimal(n as u128).as_str());
        s.append(" abandoned threads still running. Consider reducing scope or increasing TILTH_TIMEOUT.");
        Some(s)
    } else {
        None
    }
}

// ---------------------------------------------------------------------------
// Requests
// ---------------------------------------------------------------------------

/// What a request is answered.
#[derive(Debug)]
pub enum Reply {
    /// The value.
    Value(JsonValue),
    /// What the tool that is called gives.
    Call,
    /// The error of that code.
    Error { code: i32, message: String },
}

/// What a request is answered, in texts.
pub enum ReplyView {
    Value(JsonView),
    Call,
    Error { code: int, message: Seq<char> },
}

impl View for Reply {
    type V = ReplyView;

    open spec fn view(&self) -> ReplyView {
        match self {
            Reply::Value(v) => ReplyView::Value(v@),
            Reply::Call => ReplyView::Call,
            Reply::Error { code, message } => ReplyView::Error { code: *code as int, message: message@ },
        }
    }
}

/// An object without members.
pub open spec fn no_members() -> JsonView {
    JsonView::Object(Seq::empty())
}

/// What the server says when it is first asked.
pub open spec fn greeting(edit_mode: bool, version: Seq<char>) -> JsonView {
    JsonView::Object(
        seq![
            ("protocolVersion"@, JsonView::Text("2024-11-05"@)),
            ("capabilities"@, JsonView::Object(seq![("tools"@, no_members())])),
            (
                "serverInfo"@,
                JsonView::Object(
                    seq![
                        ("name"@, JsonView::Text("tilth"@)),
                        ("version"@, JsonView::Text(version)),
                    ],
                ),
            ),
            ("instructions"@, JsonView::Text(instructions(edit_mode))),
        ],
    )
}

fn make_greeting(edit_mode: bool, version: &str) -> (r: JsonValue)
    ensures
        r@ == greeting(edit_mode, version@),
{
    let mut capabilities = members();
    with(&mut capabilities, "tools", object(members()));
    assert(members_view(capabilities@) =~= seq![("tools"@, no_members())]);
    let mut info = members();
    with(&mut info, "name", text("tilth"));
    with(&mut info, "version", text(version));
    assert(members_view(info@) =~= seq![
        ("name"@, JsonView::Text("tilth"@)),
        ("version"@, JsonView::Text(version@)),
    ]);
    let mut o = members();
    with(&mut o, "protocolVersion", text("2024-11-05"));
    with(&mut o, "capabilities", object(capabilities));
    with(&mut o, "serverInfo", object(info));
    with(&mut o, "instructions", text(server_instructions(edit_mode).as_str()));
    assert(members_view(o@) =~= greeting(edit_mode, version@)->Object_0);
    object(o)
}

/// What a request is answered.
pub open spec fn answer(method: Seq<char>, edit_mode: bool, version: Seq<char>) -> ReplyView {
    if method == "initialize"@ {
        ReplyView::Value(greeting(edit_mode, version))
    } else if method == "tools/list"@ {
        ReplyView::Value(JsonView::Object(seq![("tools"@, JsonView::List(tools(edit_mode)))]))
    } else if method == "tools/call"@ {
        ReplyView::Call
    } else if method == "ping"@ {
        ReplyView::Value(no_members())
    } else {
        ReplyView::Error { code: -32601, message: "method not found: "@ + method }
    }
}

/// What a request is answered.
pub fn handle_request(method: &str, edit_mode: bool, version: &str) -> (r: Reply)
    ensures
        r@ == answer(method@, edit_mode, version@),
{
    if same_text(method, "initialize") {
        Reply::Value(make_greeting(edit_mode, version))
    } else if same_text(method, "tools/list") {
        let mut o = members();
        with(&mut o, "tools", list(tool_definitions(edit_mode)));
        assert(members_view(o@) =~= seq![("tools"@, JsonView::List(tools(edit_mode)))]);
        Reply::Value(object(o))
    } else if same_text(method, "tools/call") {
        Reply::Call
    } else if same_text(method, "ping") {
        Reply::Value(object(members()))
    } else {
        let mut message = "method not found: ".to_owned();
        message.append(method);
        Reply::Error { code: -32601, message }
    }
}

/// What is answered where a request cannot be read.
pub fn parse_error(reason: &str) -> (r: Reply)
    ensures
        r@ == (ReplyView::Error { code: -32700, message: "parse error: "@ + reason@ }),
{
    let mut message = "parse error: ".to_owned();
    message.append(reason);
    Reply::Error { code: -32700, message }
}

/// What a tool gave, as a value.
pub open spec fn tool_value(output: Seq<char>, failed: bool) -> JsonView {
    let content = JsonView::List(
        seq![
            JsonView::Object(
                seq![("type"@, JsonView::Text("text"@)), ("text"@, JsonView::Text(output))],
            ),
        ],
    );
    if failed {
        JsonView::Object(seq![("content"@, content), ("isError"@, JsonView::Bool(true))])
    } else {
        JsonView::Object(seq![("content"@, content)])
    }
}

/// What a tool gave, as a value.
pub fn tool_result(result: &Result<String, String>) -> (r: JsonValue)
    ensures
        r@ == (match result {
            Ok(s) => tool_value(s@, false),
            Err(s) => tool_value(s@, true),
        }),
{
    let (output, failed): (&str, bool) = match result {
        Ok(s) => (s.as_str(), false),
        Err(s) => (s.as_str(), true),
    };
    let mut part = members();
    with(&mut part, "type", text("text"));
    with(&mut part, "text", text(output));
    let ghost want = seq![("type"@, JsonView::Text("text"@)), ("text"@, JsonView::Text(output@))];
    assert(members_view(part@) =~= want);
    let mut parts: Vec<JsonValue> = Vec::new();
    parts.push(object(part));
    assert(values_view(parts@) =~= seq![JsonView::Object(want)]);
    let mut o = members();
    with(&mut o, "content", list(parts));
    if failed {
        with(&mut o, "isError", JsonValue::Bool(true));
    }
    assert(members_view(o@) =~= tool_value(output@, failed)->Object_0);
    object(o)
}

// ---------------------------------------------------------------------------
// Tools
// ---------------------------------------------------------------------------

/// The tools.
#[derive(Clone, Copy, Debug, PartialEq, Eq, Structural)]
pub enum Tool {
    Read,
    Search,
    Files,
    Deps,
    Session,
    Edit,
}

/// The tool of that name, or why there is none.
pub open spec fn named_tool(name: Seq<char>, edit_mode: bool) -> Result<Tool, Seq<char>> {
    if name == "tilth_read"@ {
        Ok(Tool::Read)
    } else if name == "tilth_search"@ {
        Ok(Tool::Search)
    } else if name == "tilth_files"@ {
        Ok(Tool::Files)
    } else if name == "tilth_deps"@ {
        Ok(Tool::Deps)
    } else if name == "tilth_map"@ {
        Err("tilth_map is disabled — use tilth_search instead"@)
    } else if name == "tilth_session"@ {
        Ok(Tool::Session)
    } else if name == "tilth_edit"@ && edit_mode {
        Ok(Tool::Edit)
    } else {
        Err("unknown tool: "@ + name)
    }
}

/// The tool of that name, or why there is none.
pub fn tool_named(name: &str, edit_mode: bool) -> (r: Result<Tool, String>)
    ensures
        match r {
            Ok(t) => named_tool(name@, edit_mode) == Ok::<Tool, Seq<char>>(t),
            Err(e) => named_tool(name@, edit_mode) == Err::<Tool, Seq<char>>(e@),
        },
{
    if same_text(name, "tilth_read") {
        Ok(Tool::Read)
    } else if same_text(name, "tilth_search") {
        Ok(Tool::Search)
    } else if same_text(name, "tilth_files") {
        Ok(Tool::Files)
    } else if same_text(name, "tilth_deps") {
        Ok(Tool::Deps)
    } else if same_text(name, "tilth_map") {
        Err("tilth_map is disabled — use tilth_search instead".to_owned())
    } else if same_text(name, "tilth_session") {
        Ok(Tool::Session)
    } else if same_text(name, "tilth_edit") && edit_mode {
        Ok(Tool::Edit)
    } else {
        let mut e = "unknown tool: ".to_owned();
        e.append(name);
        Err(e)
    }
}

/// Every tool that is offered can be called.
pub proof fn law_offered_tools_known(edit_mode: bool, i: int)
    requires
        0 <= i < tools(edit_mode).len(),
    ensures
        named_tool(defined_name(tools(edit_mode)[i]), edit_mode) is Ok,
{
    law_tools_offered(edit_mode);
    let names = tools(edit_mode).map_values(|t: JsonView| defined_name(t));
    assert(names[i] == defined_name(tools(edit_mode)[i]));
    reveal_strlit("tilth_edit");
    reveal_strlit("tilth_map");
    assert("tilth_edit"@.len() != "tilth_map"@.len());
    if edit_mode {
        assert(names.len() == 5);
    } else {
        assert(names.len() == 4);
    }
}

/// The tool that edits cannot be called where files cannot be edited.
pub proof fn law_no_edit_without_mode()
    ensures
        named_tool("tilth_edit"@, false) is Err,
{
    reveal_strlit("tilth_edit");
    reveal_strlit("tilth_read");
    reveal_strlit("tilth_search");
    reveal_strlit("tilth_files");
    reveal_strlit("tilth_deps");
    reveal_strlit("tilth_session");
    assert("tilth_edit"@[6] == 'e');
    assert("tilth_read"@[6] == 'r');
    assert("tilth_search"@[6] == 's');
    assert("tilth_files"@[6] == 'f');
    assert("tilth_deps"@[6] == 'd');
    assert("tilth_session"@[6] == 's');
}

/// What a search looks for.
#[derive(Debug)]
pub enum SearchFor {
    Symbols(Vec<String>),
    Content(String),
    Regex(String),
    Callers(String),
}

/// What a search looks for, in texts.
pub enum SearchForView {
    Symbols(Seq<Seq<char>>),
    Content(Seq<char>),
    Regex(Seq<char>),
    Callers(Seq<char>),
}

impl View for SearchFor {
    type V = SearchForView;

    open spec fn view(&self) -> SearchForView {
        match self {
            SearchFor::Symbols(v) => SearchForView::Symbols(strs(v@)),
            SearchFor::Content(s) => SearchForView::Content(s@),
            SearchFor::Regex(s) => SearchForView::Regex(s@),
            SearchFor::Callers(s) => SearchForView::Callers(s@),
        }
    }
}

/// What a call asks for.
#[derive(Debug)]
pub enum ToolCall {
    /// Several files; what is no text is nothing.
    ReadBatch { paths: Vec<Option<String>>, budget: Option<u64> },
    Read { path: String, section: Option<String>, full: bool, budget: Option<u64> },
    Search {
        what: SearchFor,
        scope: String,
        expand: u64,
        context: Option<String>,
        budget: Option<u64>,
    },
    Files { pattern: String, scope: String, budget: Option<u64> },
    Deps { path: String, scope: String, budget: Option<u64> },
    Session { reset: bool },
    Edit { path: String },
}

/// What a call asks for, in texts.
pub enum CallView {
    ReadBatch { paths: Seq<Option<Seq<char>>>, budget: Option<u64> },
    Read { path: Seq<char>, section: Option<Seq<char>>, full: bool, budget: Option<u64> },
    Search {
        what: SearchForView,
        scope: Seq<char>,
        expand: u64,
        context: Option<Seq<char>>,
        budget: Option<u64>,
    },
    Files { pattern: Seq<char>, scope: Seq<char>, budget: Option<u64> },
    Deps { path: Seq<char>, scope: Seq<char>, budget: Option<u64> },
    Session { reset: bool },
    Edit { path: Seq<char> },
}

impl View for ToolCall {
    type V = CallView;

    open spec fn view(&self) -> CallView {
        match self {
            ToolCall::ReadBatch { paths, budget } => CallView::ReadBatch {
                paths: opt_texts(paths@),
                budget: *budget,
            },
            ToolCall::Read { path, section, full, budget } => CallView::Read {
                path: path@,
                section: opt_text(*section),
                full: *full,
                budget: *budget,
            },
            ToolCall::Search { what, scope, expand, context, budget } => CallView::Search {
                what: what@,
                scope: scope@,
                expand: *expand,
                context: opt_text(*context),
                budget: *budget,
            },
            ToolCall::Files { pattern, scope, budget } => CallView::Files {
                pattern: pattern@,
                scope: scope@,
                budget: *budget,
            },
            ToolCall::Deps { path, scope, budget } => CallView::Deps {
                path: path@,
                scope: scope@,
                budget: *budget,
            },
            ToolCall::Session { reset } => CallView::Session { reset: *reset },
            ToolCall::Edit { path } => CallView::Edit { path: path@ },
        }
    }
}

/// What the answer of a function that reads arguments says.
pub open spec fn call_view(r: Result<ToolCall, String>) -> Result<CallView, Seq<char>> {
    match r {
        Ok(c) => Ok(c@),
        Err(e) => Err(e@),
    }
}

/// How many files can be read in one call.
pub const MAX_BATCH: usize = 20;

/// How many symbols can be searched for in one call.
pub const MAX_SYMBOLS: usize = 5;

/// What a call of the tool that reads asks for.
pub open spec fn read_call(args: JsonView) -> Result<CallView, Seq<char>> {
    let budget = member_number(args, "budget"@);
    match member_texts(args, "paths"@) {
        Some(paths) => if paths.len() > MAX_BATCH {
            Err("batch read limited to 20 files (got "@ + dec(paths.len()) + ")"@)
        } else {
            Ok(CallView::ReadBatch { paths, budget })
        },
        None => match member_text(args, "path"@) {
            Some(path) => Ok(
                CallView::Read {
                    path,
                    section: member_text(args, "section"@),
                    full: member_true(args, "full"@),
                    budget,
                },
            ),
            None => Err("missing required parameter: path (or use paths for batch read)"@),
        },
    }
}

/// What a call of the tool that reads asks for, or why it cannot be followed.
pub fn tool_read(args: &JsonValue) -> (r: Result<ToolCall, String>)
    ensures
        call_view(r) == read_call(args@),
{
    let budget = number_at(args, "budget");
    match texts_at(args, "paths") {
        Some(paths) => {
            assert(opt_texts(paths@).len() == paths@.len());
            if paths.len() > MAX_BATCH {
                let mut e = "batch read limited to 20 files (got ".to_owned();
                e.append(decimal(paths.len() as u128).as_str());
                e.append(")");
                Err(e)
            } else {
                Ok(ToolCall::ReadBatch { paths, budget })
            }
        },
        None => match text_at(args, "path") {
            Some(path) => Ok(
                ToolCall::Read {
                    path,
                    section: text_at(args, "section"),
                    full: true_at(args, "full"),
                    budget,
                },
            ),
            None => Err("missing required parameter: path (or use paths for batch read)".to_owned()),
        },
    }
}

/// The parts of a list, without blanks around them; those that are empty are left out.
pub open spec fn listed(parts: Seq<Seq<char>>, n: int) -> Seq<Seq<char>>
    decreases n,
{
    if n <= 0 {
        Seq::empty()
    } else if trim(parts[n - 1]).len() > 0 {
        listed(parts, n - 1).push(trim(parts[n - 1]))
    } else {
        listed(parts, n - 1)
    }
}

/// The symbols that a query lists.
pub open spec fn listed_symbols(query: Seq<char>) -> Seq<Seq<char>> {
    listed(split(query, ','), split(query, ',').len() as int)
}

/// The symbols that a query lists.
pub fn search_queries(query: &str) -> (r: Vec<String>)
    ensures
        strs(r@) == listed_symbols(query@),
{
    broadcast use lemma_strs_push;

    let chars = chars_of(query);
    let pieces = split_on(chars.as_slice(), ',');
    let ghost v = views(pieces@);
    assert(v.len() == pieces@.len());
    let mut out: Vec<String> = Vec::new();
    let mut i: usize = 0;
    assert(strs(out@) =~= Seq::<Seq<char>>::empty());
    while i < pieces.len()
        invariant
            i <= pieces@.len(),
            v == views(pieces@),
            strs(out@) == listed(v, i as int),
        decreases pieces@.len() - i,
    {
        assert(v[i as int] == pieces@[i as int]@);
        let t = trim_of(pieces[i]);
        if t.len() > 0 {
            out.push(string_of(t));
        }
        i = i + 1;
    }
    out
}

/// What a search of some kind looks for.
pub open spec fn search_for(kind: Seq<char>, query: Seq<char>) -> Result<SearchForView, Seq<char>> {
    if kind == "symbol"@ {
        let names = listed_symbols(query);
        if names.len() == 0 {
            Err("missing required parameter: query"@)
        } else if names.len() <= MAX_SYMBOLS {
            Ok(SearchForView::Symbols(names))
        } else {
            Err("multi-symbol search limited to 5 queries (got "@ + dec(names.len()) + ")"@)
        }
    } else if kind == "content"@ {
        Ok(SearchForView::Content(query))
    } else if kind == "regex"@ {
        Ok(SearchForView::Regex(query))
    } else if kind == "callers"@ {
        Ok(SearchForView::Callers(query))
    } else {
        Err("unknown search kind: "@ + kind + ". Use: symbol, content, regex, callers"@)
    }
}

fn make_search_for(kind: &str, query: &str) -> (r: Result<SearchFor, String>)
    ensures
        match r {
            Ok(w) => search_for(kind@, query@) == Ok::<SearchForView, Seq<char>>(w@),
            Err(e) => search_for(kind@, query@) == Err::<SearchForView, Seq<char>>(e@),
        },
{
    if same_text(kind, "symbol") {
        let names = search_queries(query);
        assert(strs(names@).len() == names@.len());
        if names.len() == 0 {
            Err("missing required parameter: query".to_owned())
        } else if names.len() <= MAX_SYMBOLS {
            Ok(SearchFor::Symbols(names))
        } else {
            let mut e = "multi-symbol search limited to 5 queries (got ".to_owned();
            e.append(decimal(names.len() as u128).as_str());
            e.append(")");
            Err(e)
        }
    } else if same_text(kind, "content") {
        Ok(SearchFor::Content(query.to_owned()))
    } else if same_text(kind, "regex") {
        Ok(SearchFor::Regex(query.to_owned()))
    } else if same_text(kind, "callers") {
        Ok(SearchFor::Callers(query.to_owned()))
    } else {
        let mut e = "unknown search kind: ".to_owned();
        e.append(kind);
        e.append(". Use: symbol, content, regex, callers");
        Err(e)
    }
}

/// The text of an argument, or the usual one.
pub open spec fn text_or(args: JsonView, name: Seq<char>, usual: Seq<char>) -> Seq<char> {
    match member_text(args, name) {
        Some(s) => s,
        None => usual,
    }
}

fn text_at_or(args: &JsonValue, name: &str, usual: &str) -> (r: String)
    ensures
        r@ == text_or(args@, name@, usual@),
{
    match text_at(args, name) {
        Some(s) => s,
        None => usual.to_owned(),
    }
}

/// What a call of the tool that searches asks for.
pub open spec fn search_call(args: JsonView) -> Result<CallView, Seq<char>> {
    match member_text(args, "query"@) {
        Some(query) => match search_for(text_or(args, "kind"@, "symbol"@), query) {
            Ok(what) => Ok(
                CallView::Search {
                    what,
                    scope: text_or(args, "scope"@, "."@),
                    expand: match member_number(args, "expand"@) {
                        Some(n) => n,
                        None => 2,
                    },
                    context: member_text(args, "context"@),
                    budget: member_number(args, "budget"@),
                },
            ),
            Err(e) => Err(e),
        },
        None => Err("missing required parameter: query"@),
    }
}

/// What a call of the tool that searches asks for, or why it cannot be followed.
pub fn tool_search(args: &JsonValue) -> (r: Result<ToolCall, String>)
    ensures
        call_view(r) == search_call(args@),
{
    let query = match text_at(args, "query") {
        Some(q) => q,
        None => {
            return Err("missing required parameter: query".to_owned());
        },
    };
    let kind = text_at_or(args, "kind", "symbol");
    match make_search_for(kind.as_str(), query.as_str()) {
        Ok(what) => {
            let expand: u64 = match number_at(args, "expand") {
                Some(n) => n,
                None => 2,
            };
            Ok(
                ToolCall::Search {
                    what,
                    scope: text_at_or(args, "scope", "."),
                    expand,
                    context: text_at(args, "context"),
                    budget: number_at(args, "budget"),
                },
            )
        },
        Err(e) => Err(e),
    }
}

/// What a call of the tool that finds files asks for.
pub open spec fn files_call(args: JsonView) -> Result<CallView, Seq<char>> {
    match member_text(args, "pattern"@) {
        Some(pattern) => Ok(
            CallView::Files {
                pattern,
                scope: text_or(args, "scope"@, "."@),
                budget: member_number(args, "budget"@),
            },
        ),
        None => Err("missing required parameter: pattern"@),
    }
}

/// What a call of the tool that finds files asks for, or why it cannot be followed.
pub fn tool_files(args: &JsonValue) -> (r: Result<ToolCall, String>)
    ensures
        call_view(r) == files_call(args@),
{
    match text_at(args, "pattern") {
        Some(pattern) => Ok(
            ToolCall::Files {
                pattern,
                scope: text_at_or(args, "scope", "."),
                budget: number_at(args, "budget"),
            },
        ),
        None => Err("missing required parameter: pattern".to_owned()),
    }
}

/// What a call of the tool for dependencies asks for.
pub open spec fn deps_call(args: JsonView) -> Result<CallView, Seq<char>> {
    match member_text(args, "path"@) {
        Some(path) => Ok(
            CallView::Deps {
                path,
                scope: text_or(args, "scope"@, "."@),
                budget: member_number(args, "budget"@),
            },
        ),
        None => Err("missing required parameter: path"@),
    }
}

/// What a call of the tool for dependencies asks for, or why it cannot be followed.
pub fn tool_deps(args: &JsonValue) -> (r: Result<ToolCall, String>)
    ensures
        call_view(r) == deps_call(args@),
{
    match text_at(args, "path") {
        Some(path) => Ok(
            ToolCall::Deps {
                path,
                scope: text_at_or(args, "scope", "."),
                budget: number_at(args, "budget"),
            },
        ),
        None => Err("missing required parameter: path".to_owned()),
    }
}

/// Whether the member of that name is a list.
pub open spec fn has_list(args: JsonView, name: Seq<char>) -> bool {
    member(args, name) matches Some(v) && v is List
}

/// What a call of the tool that edits asks for.
pub open spec fn edit_call(args: JsonView) -> Result<CallView, Seq<char>> {
    match member_text(args, "path"@) {
        Some(path) => if has_list(args, "edits"@) {
            Ok(CallView::Edit { path })
        } else {
            Err("missing required parameter: edits"@)
        },
        None => Err("missing required parameter: path"@),
    }
}

/// What a call of the tool that edits asks for, or why it cannot be followed. The edits
/// themselves are read one by one.
pub fn tool_edit(args: &JsonValue) -> (r: Result<ToolCall, String>)
    ensures
        call_view(r) == edit_call(args@),
{
    match text_at(args, "path") {
        Some(path) => {
            let listed = match get(args, "edits") {
                Some(JsonValue::List(_)) => true,
                _ => false,
            };
            if listed {
                Ok(ToolCall::Edit { path })
            } else {
                Err("missing required parameter: edits".to_owned())
            }
        },
        None => Err("missing required parameter: path".to_owned()),
    }
}

/// What a call of a tool asks for.
pub open spec fn called(name: Seq<char>, args: JsonView, edit_mode: bool) -> Result<CallView, Seq<char>> {
    match named_tool(name, edit_mode) {
        Ok(Tool::Read) => read_call(args),
        Ok(Tool::Search) => search_call(args),
        Ok(Tool::Files) => files_call(args),
        Ok(Tool::Deps) => deps_call(args),
        Ok(Tool::Session) => Ok(
            CallView::Session { reset: text_or(args, "action"@, "summary"@) == "reset"@ },
        ),
        Ok(Tool::Edit) => edit_call(args),
        Err(e) => Err(e),
    }
}

/// What a call of a tool asks for, or why it cannot be followed.
pub fn dispatch_tool(tool: &str, args: &JsonValue, edit_mode: bool) -> (r: Result<ToolCall, String>)
    ensures
        call_view(r) == called(tool@, args@, edit_mode),
{
    match tool_named(tool, edit_mode) {
        Ok(Tool::Read) => tool_read(args),
        Ok(Tool::Search) => tool_search(args),
        Ok(Tool::Files) => tool_files(args),
        Ok(Tool::Deps) => tool_deps(args),
        Ok(Tool::Session) => {
            let action = text_at_or(args, "action", "summary");
            Ok(ToolCall::Session { reset: same_text(action.as_str(), "reset") })
        },
        Ok(Tool::Edit) => tool_edit(args),
        Err(e) => Err(e),
    }
}

/// A search for symbols that is followed looks for at least one and at most five, each
/// of which has a text without blanks around it.
pub proof fn law_symbols_bounded(query: Seq<char>)
    ensures
        search_for("symbol"@, query) matches Ok(w) ==> (w matches SearchForView::Symbols(v) && 1 <= v.len()
            <= MAX_SYMBOLS && forall|i: int|
            0 <= i < v.len() ==> (#[trigger] v[i]).len() > 0),
{
    lemma_listed(split(query, ','), split(query, ',').len() as int);
}

proof fn lemma_listed(parts: Seq<Seq<char>>, n: int)
    ensures
        forall|i: int| 0 <= i < listed(parts, n).len() ==> (#[trigger] listed(parts, n)[i]).len() > 0,
    decreases n,
{
    if n > 0 {
        lemma_listed(parts, n - 1);
        let r = listed(parts, n - 1);
        assert forall|i: int| 0 <= i < listed(parts, n).len() implies (#[trigger] listed(
            parts,
            n,
        )[i]).len() > 0 by {
            if i < r.len() {
                assert(listed(parts, n)[i] == r[i]);
            }
        }
    }
}

// ---------------------------------------------------------------------------
// Edits
// ---------------------------------------------------------------------------

/// What is written of an edit.
#[derive(Debug)]
pub struct EditArgs {
    pub start: Option<String>,
    pub end: Option<String>,
    pub content: Option<String>,
}

/// What is written of an edit.
pub fn edit_args(edit: &JsonValue) -> (r: EditArgs)
    ensures
        opt_text(r.start) == member_text(edit@, "start"@),
        opt_text(r.end) == member_text(edit@, "end"@),
        opt_text(r.content) == member_text(edit@, "content"@),
{
    EditArgs { start: text_at(edit, "start"), end: text_at(edit, "end"), content: text_at(edit, "content") }
}

/// What is wrong with the `i`-th edit, where `start_ok` and `end_ok` tell whether its
/// anchors can be read.
pub open spec fn edit_fault(
    i: nat,
    start: Option<Seq<char>>,
    end: Option<Seq<char>>,
    content: Option<Seq<char>>,
    start_ok: bool,
    end_ok: bool,
) -> Option<Seq<char>> {
    let head = "edit["@ + dec(i) + "]: "@;
    match start {
        None => Some(head + "missing 'start'"@),
        Some(s) => if !start_ok {
            Some(head + "invalid start anchor '"@ + s + "'"@)
        } else if end matches Some(e) && !end_ok {
            Some(head + "invalid end anchor '"@ + end->0 + "'"@)
        } else if content is None {
            Some(head + "missing 'content'"@)
        } else {
            None
        },
    }
}

/// What is wrong with the `i`-th edit.
pub fn edit_error(i: usize, edit: &EditArgs, start_ok: bool, end_ok: bool) -> (r: Option<String>)
    ensures
        opt_text(r) == edit_fault(
            i as nat,
            opt_text(edit.start),
            opt_text(edit.end),
            opt_text(edit.content),
            start_ok,
            end_ok,
        ),
{
    let mut e = "edit[".to_owned();
    e.append(decimal(i as u128).as_str());
    e.append("]: ");
    match &edit.start {
        None => {
            e.append("missing 'start'");
            return Some(e);
        },
        Some(s) => {
            if !start_ok {
                e.append("invalid start anchor '");
                e.append(s.as_str());
                e.append("'");
                return Some(e);
            }
        },
    }
    if let Some(s) = &edit.end {
        if !end_ok {
            e.append("invalid end anchor '");
            e.append(s.as_str());
            e.append("'");
            return Some(e);
        }
    }
    if edit.content.is_none() {
        e.append("missing 'content'");
        return Some(e);
    }
    None
}

/// What is answered where a file changed since it was read.
pub fn mismatch_message(detail: &str) -> (r: String)
    ensures
        r@ == "hash mismatch — file changed since last read:\n\n"@ + detail@,
{
    let mut s = "hash mismatch — file changed since last read:\n\n".to_owned();
    s.append(detail);
    s
}

// ---------------------------------------------------------------------------
// Reading several files
// ---------------------------------------------------------------------------

/// What is done next where several files are read.
#[derive(Debug)]
pub enum BatchStep {
    /// All were read.
    Done,
    /// The time is over: the text stands for the rest.
    Late(String),
    /// The call fails.
    Bad(String),
    /// The file is read.
    Read(String),
}

/// What is done next, in texts.
pub enum BatchStepView {
    Done,
    Late(Seq<char>),
    Bad(Seq<char>),
    Read(Seq<char>),
}

impl View for BatchStep {
    type V = BatchStepView;

    open spec fn view(&self) -> BatchStepView {
        match self {
            BatchStep::Done => BatchStepView::Done,
            BatchStep::Late(s) => BatchStepView::Late(s@),
            BatchStep::Bad(s) => BatchStepView::Bad(s@),
            BatchStep::Read(s) => BatchStepView::Read(s@),
        }
    }
}

/// What is done after `i` files, where `late` tells whether the time is over.
pub open spec fn next_in_batch(paths: Seq<Option<Seq<char>>>, i: int, late: bool) -> BatchStepView {
    if i >= paths.len() {
        BatchStepView::Done
    } else if late {
        BatchStepView::Late(
            "# batch read stopped — deadline exceeded after "@ + dec(i as nat) + "/"@ + dec(paths.len())
                + " files. Reduce batch size or set TILTH_BATCH_TIMEOUT=<seconds>."@,
        )
    } else {
        match paths[i] {
            Some(p) => BatchStepView::Read(p),
            None => BatchStepView::Bad("paths must be an array of strings"@),
        }
    }
}

/// What is done after `i` files.
pub fn batch_step(paths: &Vec<Option<String>>, i: usize, late: bool) -> (r: BatchStep)
    ensures
        r@ == next_in_batch(opt_texts(paths@), i as int, late),
{
    assert(opt_texts(paths@).len() == paths@.len());
    if i >= paths.len() {
        BatchStep::Done
    } else if late {
        let mut s = "# batch read stopped — deadline exceeded after ".to_owned();
        s.append(decimal(i as u128).as_str());
        s.append("/");
        s.append(decimal(paths.len() as u128).as_str());
        s.append(" files. Reduce batch size or set TILTH_BATCH_TIMEOUT=<seconds>.");
        BatchStep::Late(s)
    } else {
        assert(opt_texts(paths@)[i as int] == opt_text(paths@[i as int]));
        match &paths[i] {
            Some(p) => BatchStep::Read(p.clone()),
            None => BatchStep::Bad("paths must be an array of strings".to_owned()),
        }
    }
}

/// What stands for a file that could not be read.
pub fn batch_failure(path: &str, reason: &str) -> (r: String)
    ensures
        r@ == "# "@ + path@ + " — error: "@ + reason@,
{
    let mut s = "# ".to_owned();
    s.append(path);
    s.append(" — error: ");
    s.append(reason);
    s
}

/// What was read of several files.
pub fn batch_text(results: &[String]) -> (r: String)
    ensures
        r@ == join(strs(results@), "\n\n"@),
{
    join_strings(results, "\n\n")
}

/// A file with a hint at those that belong to it.
pub open spec fn with_related(output: Seq<char>, related: Seq<Seq<char>>) -> Seq<char> {
    if related.len() == 0 {
        output
    } else {
        output + "\n\n> Related: "@ + join(related, ", "@)
    }
}

/// A file with a hint at those that belong to it.
pub fn related_hint(output: &str, related: &[String]) -> (r: String)
    ensures
        r@ == with_related(output@, strs(related@)),
{
    assert(strs(related@).len() == related@.len());
    let mut s = output.to_owned();
    if related.len() > 0 {
        s.append("\n\n> Related: ");
        s.append(join_strings(related, ", ").as_str());
    }
    s
}

// ---------------------------------------------------------------------------
// Scope and budget
// ---------------------------------------------------------------------------

/// Where is searched, and the warning where that is not what was asked for. The
/// directory that was asked for is `raw`, in full it is `resolved`.
pub open spec fn scope_of(
    raw: Seq<char>,
    resolved: Seq<char>,
    cwd: Seq<char>,
    is_dir: bool,
) -> (Seq<char>, Option<Seq<char>>) {
    if same_path(resolved, cwd) {
        ("."@, None)
    } else if !is_dir {
        (
            "."@,
            Some(
                "scope \""@ + raw
                    + "\" is not a valid directory, searching current directory instead.\n\n"@,
            ),
        )
    } else {
        (resolved, None)
    }
}

/// Where is searched, and the warning where that is not what was asked for.
pub fn resolve_scope(raw: &str, resolved: &str, cwd: &str, is_dir: bool) -> (r: (String, Option<String>))
    ensures
        (r.0@, opt_text(r.1)) == scope_of(raw@, resolved@, cwd@, is_dir),
{
    if equal_paths(resolved, cwd) {
        return (".".to_owned(), None);
    }
    if !is_dir {
        let mut w = "scope \"".to_owned();
        w.append(raw);
        w.append("\" is not a valid directory, searching current directory instead.\n\n");
        return (".".to_owned(), Some(w));
    }
    (resolved.to_owned(), None)
}

/// The output after the warning, where there is one.
pub fn after_warning(warning: &Option<String>, output: &str) -> (r: String)
    ensures
        r@ == (match opt_text(*warning) {
            Some(w) => w + output@,
            None => output@,
        }),
{
    match warning {
        Some(w) => {
            let mut s = w.clone();
            s.append(output);
            s
        },
        None => output.to_owned(),
    }
}

/// The output, made smaller by `reduce` where there is a budget.
pub fn apply_budget<F: FnOnce(String, u64) -> String>(
    output: String,
    budget: Option<u64>,
    reduce: F,
) -> (r: String)
    requires
        budget matches Some(b) ==> call_requires(reduce, (output, b)),
    ensures
        match budget {
            Some(b) => call_ensures(reduce, (output, b), r),
            None => r@ == output@,
        },
{
    match budget {
        Some(b) => reduce(output, b),
        None => output,
    }
}

/// Each part of a list that is not blank is looked for, without the blanks around it,
/// and nothing else is.
pub proof fn law_every_part_is_listed(parts: Seq<Seq<char>>, n: int, s: Seq<char>)
    requires
        0 <= n <= parts.len(),
    ensures
        listed(parts, n).contains(s) <==> s.len() > 0 && exists|i: int|
            0 <= i < n && trim(#[trigger] parts[i]) == s,
        listed(parts, n).len() <= n,
    decreases n,
{
    if n > 0 {
        law_every_part_is_listed(parts, n - 1, s);
        let q = listed(parts, n - 1);
        let r = listed(parts, n);
        if q.contains(s) {
            let k = choose|k: int| 0 <= k < q.len() && q[k] == s;
            assert(r[k] == s);
        }
        if r.contains(s) {
            let k = choose|k: int| 0 <= k < r.len() && r[k] == s;
            if k < q.len() {
                assert(q[k] == s);
            } else {
                assert(trim(parts[n - 1]) == s);
            }
        }
        if s.len() > 0 && exists|i: int| 0 <= i < n && trim(#[trigger] parts[i]) == s {
            let i = choose|i: int| 0 <= i < n && trim(#[trigger] parts[i]) == s;
            if i == n - 1 {
                assert(r[q.len() as int] == s);
            }
        }
    }
}

/// Up to twenty files are read in one call, each by its path and in the order of the
/// list, as long as the time is not over.
pub proof fn law_every_file_of_a_batch_is_read(
    args: JsonView,
    files: Seq<Seq<char>>,
    budget: Option<u64>,
    i: int,
)
    requires
        member_texts(args, "paths"@) matches Some(t) && t == files.map_values(
            |f: Seq<char>| Some(f),
        ),
        member_number(args, "budget"@) == budget,
        0 <= i,
    ensures
        files.len() <= 20 ==> (read_call(args) matches Ok(CallView::ReadBatch { paths, budget: b })
            && b == budget && paths.len() == files.len() && (if i < files.len() {
            next_in_batch(paths, i, false) == BatchStepView::Read(files[i])
        } else {
            next_in_batch(paths, i, false) == BatchStepView::Done
        })),
        files.len() > 20 ==> read_call(args) is Err,
{
}

/// A file is read by its path, and the part of it that is asked for, where no list is
/// given.
pub proof fn law_the_named_file_is_read(args: JsonView, file: Seq<char>)
    requires
        member_texts(args, "paths"@) is None,
        member_text(args, "path"@) == Some(file),
    ensures
        read_call(args) matches Ok(CallView::Read { path, section, full, budget: _ }) && path == file
            && section == member_text(args, "section"@) && full == (member(args, "full"@) == Some(
            JsonView::Bool(true),
        )),
{
}

} // verus!
