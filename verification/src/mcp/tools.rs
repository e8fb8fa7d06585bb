//! The tools that the server offers, and how they are described.
use vstd::prelude::*;
use vstd::string::*;

use crate::json::{
    list, members, members_view, number, object, text, values_view, with, JsonValue, JsonView, Member,
};
use crate::text::strs;

verus! {

/// What the server tells its clients of itself.
pub const SERVER_INSTRUCTIONS: &'static str = "\
tilth — code intelligence MCP server. Replaces grep, cat, find, ls with AST-aware equivalents.\n\
\n\
To explore code, always search first. tilth_search finds definitions, usages, and file locations in one call.\n\
Usage: tilth_search(query: \"handleRequest\").\n\
tilth_files is ONLY for listing directory contents when you have no symbol or text to search for.\n\
DO NOT use Read if content is already shown in expanded search results.\n\
DO NOT use Grep, Read, or Glob. Always use the better tools tilth_search (grep), tilth_read (read), tilth_files (glob).\n\
\n\
tilth_search: Search code — finds definitions, usages, and text. Replaces grep/rg for all code search.\n\
  Comma-separated symbols for multi-symbol lookup (max 5).\n\
  kind: \"symbol\" (default) | \"content\" (strings/comments) | \"callers\" (call sites)\n\
  expand (default 2): inline full source for top matches.\n\
  context: path to file being edited — boosts nearby results.\n\
  Output per match:\n\
    ## <path>:<start>-<end> [definition|usage|impl]\n\
    <outline context>\n\
    <expanded source block>\n\
    ── calls ──\n\
      <name>  <path>:<start>-<end>  <signature>\n\
    ── siblings ──\n\
      <name>  <path>:<start>-<end>  <signature>\n\
  Re-expanding a previously shown definition returns [shown earlier].\n\
\n\
tilth_read: Read file content with smart outlining. Replaces cat/head/tail.\n\
  Small files → full content. Large files → structural outline.\n\
  section: \"<start>-<end>\" or \"<heading text>\"\n\
  paths: read multiple files in one call.\n\
  Output:\n\
    <line_number> │ <content>                  ← full/section mode\n\
    [<start>-<end>]  <symbol name>             ← outline mode\n\
\n\
tilth_files: Find files by glob pattern. Replaces find, ls, pwd, and the host Glob tool.\n\
  Output: <path>  (~<token_count> tokens). Respects .gitignore.\n\
\n\
tilth_deps: Blast-radius check — what imports this file and what it imports.\n\
  Use ONLY before renaming, removing, or changing an export's signature.\n\
\n\
To search code, use tilth_search instead of Grep or Bash(grep/rg).\n\
To read files, use tilth_read instead of Read or Bash(cat).\n\
To find files, use tilth_files instead of Glob or Bash(find/ls).\n\
DO NOT re-read files already shown in expanded search results.";

/// What it tells them besides where files can be edited.
pub const EDIT_MODE_EXTRA: &'static str = "\n\
\n\
tilth_edit: Edit files using hash-anchored lines. Replaces the host Edit tool.\n\
  tilth_read → copy anchors (<line>:<hash>) → pass to tilth_edit.\n\
  Single line: {\"start\": \"<line>:<hash>\", \"content\": \"<new code>\"}\n\
  Range: {\"start\": \"<line>:<hash>\", \"end\": \"<line>:<hash>\", \"content\": \"...\"}\n\
  Delete: {\"start\": \"<line>:<hash>\", \"content\": \"\"}\n\
  Hash mismatch → file changed, re-read and retry.\n\
  Large files: tilth_read shows outline — use section to get hashlined content.\n\
  After editing a function signature, tilth_edit shows callers that may need updating.\n\
DO NOT use the host Edit tool. Use tilth_edit for all edits.";

/// What the server tells its clients.
pub open spec fn instructions(edit_mode: bool) -> Seq<char> {
    if edit_mode {
        SERVER_INSTRUCTIONS@ + EDIT_MODE_EXTRA@
    } else {
        SERVER_INSTRUCTIONS@
    }
}

/// What the server tells its clients.
pub fn server_instructions(edit_mode: bool) -> (r: String)
    ensures
        r@ == instructions(edit_mode),
{
    let mut s = SERVER_INSTRUCTIONS.to_owned();
    if edit_mode {
        s.append(EDIT_MODE_EXTRA);
    }
    s
}

/// A list of texts.
pub open spec fn text_list(v: Seq<Seq<char>>) -> JsonView {
    JsonView::List(v.map_values(|s: Seq<char>| JsonView::Text(s)))
}

fn texts(v: &Vec<String>) -> (r: JsonValue)
    ensures
        r@ == text_list(strs(v@)),
{
    let mut out: Vec<JsonValue> = Vec::new();
    let mut i: usize = 0;
    while i < v.len()
        invariant
            i <= v@.len(),
            out@.len() == i,
            forall|k: int| 0 <= k < i ==> (#[trigger] out@[k])@ == JsonView::Text(v@[k]@),
        decreases v@.len() - i,
    {
        out.push(text(v[i].as_str()));
        i = i + 1;
    }
    assert(values_view(out@) =~= strs(v@).map_values(|s: Seq<char>| JsonView::Text(s)));
    list(out)
}

/// A property of some kind.
pub open spec fn property(kind: Seq<char>, description: Seq<char>) -> JsonView {
    JsonView::Object(seq![("type"@, JsonView::Text(kind)), ("description"@, JsonView::Text(description))])
}

fn property_of(kind: &str, description: &str) -> (r: JsonValue)
    ensures
        r@ == property(kind@, description@),
{
    let mut o = members();
    with(&mut o, "type", text(kind));
    with(&mut o, "description", text(description));
    assert(members_view(o@) =~= property(kind@, description@)->Object_0);
    object(o)
}

/// A property that has a value where none is given.
pub open spec fn property_with_default(
    kind: Seq<char>,
    value: JsonView,
    description: Seq<char>,
) -> JsonView {
    JsonView::Object(
        seq![
            ("type"@, JsonView::Text(kind)),
            ("default"@, value),
            ("description"@, JsonView::Text(description)),
        ],
    )
}

fn property_with_default_of(kind: &str, value: JsonValue, description: &str) -> (r: JsonValue)
    ensures
        r@ == property_with_default(kind@, value@, description@),
{
    let mut o = members();
    with(&mut o, "type", text(kind));
    with(&mut o, "default", value);
    with(&mut o, "description", text(description));
    assert(members_view(o@) =~= property_with_default(kind@, value@, description@)->Object_0);
    object(o)
}

/// What an object must and can have.
pub open spec fn schema(
    required: Seq<Seq<char>>,
    properties: Seq<(Seq<char>, JsonView)>,
) -> JsonView {
    if required.len() > 0 {
        JsonView::Object(
            seq![
                ("type"@, JsonView::Text("object"@)),
                ("required"@, text_list(required)),
                ("properties"@, JsonView::Object(properties)),
            ],
        )
    } else {
        JsonView::Object(
            seq![
                ("type"@, JsonView::Text("object"@)),
                ("properties"@, JsonView::Object(properties)),
            ],
        )
    }
}

fn make_schema(required: Vec<String>, properties: Vec<Member>) -> (r: JsonValue)
    ensures
        r@ == schema(strs(required@), members_view(properties@)),
{
    let ghost want = schema(strs(required@), members_view(properties@));
    assert(strs(required@).len() == required@.len());
    let mut o = members();
    with(&mut o, "type", text("object"));
    if required.len() > 0 {
        with(&mut o, "required", texts(&required));
    }
    with(&mut o, "properties", object(properties));
    assert(members_view(o@) =~= want->Object_0);
    object(o)
}

/// The definition of a tool.
pub open spec fn tool_view(name: Seq<char>, description: Seq<char>, input: JsonView) -> JsonView {
    JsonView::Object(
        seq![
            ("name"@, JsonView::Text(name)),
            ("description"@, JsonView::Text(description)),
            ("inputSchema"@, input),
        ],
    )
}

fn make_tool(name: &str, description: &str, input: JsonValue) -> (r: JsonValue)
    ensures
        r@ == tool_view(name@, description@, input@),
{
    let mut o = members();
    with(&mut o, "name", text(name));
    with(&mut o, "description", text(description));
    with(&mut o, "inputSchema", input);
    assert(members_view(o@) =~= tool_view(name@, description@, input@)->Object_0);
    object(o)
}

/// How reading is described where files can be edited.
pub const READ_AND_EDIT: &'static str = "Read a file with smart outlining. Replaces cat/head/tail and the host Read tool — \
         use this for all file reading. Output uses hashline format (line:hash|content) — \
         the line:hash anchors are required by tilth_edit. Small files return full hashlined content. \
         Large files return a structural outline (no hashlines); use `section` to get hashlined \
         content for the lines you want to edit. Use `full` to force complete content. \
         Use `paths` to read multiple files in one call.";

/// How reading is described.
pub const READ_ONLY: &'static str = "Read a file with smart outlining. Replaces cat/head/tail and the host Read tool — \
         use this for all file reading. Small files return full content. Large files return \
         a structural outline (functions, classes, imports) so you see the shape without \
         consuming your context window. Use `section` to read specific line ranges. \
         Use `full` to force complete content. Use `paths` to read multiple files in one call.";

/// How reading is described.
pub open spec fn read_description(edit_mode: bool) -> Seq<char> {
    if edit_mode {
        READ_AND_EDIT@
    } else {
        READ_ONLY@
    }
}

fn read_description_of(edit_mode: bool) -> (r: &'static str)
    ensures
        r@ == read_description(edit_mode),
{
    if edit_mode {
        READ_AND_EDIT
    } else {
        READ_ONLY
    }
}

/// The property that tells what kind of search is asked for.
pub open spec fn kind_property() -> JsonView {
    JsonView::Object(
        seq![
            ("type"@, JsonView::Text("string"@)),
            ("enum"@, text_list(seq!["symbol"@, "content"@, "regex"@, "callers"@])),
            ("default"@, JsonView::Text("symbol"@)),
            (
                "description"@,
                JsonView::Text("Search type. symbol: structural definitions + usages. content: literal text. regex: regex pattern. callers: find all call sites of a symbol."@),
            ),
        ],
    )
}

fn kind_property_of() -> (r: JsonValue)
    ensures
        r@ == kind_property(),
{
    let mut kinds: Vec<String> = Vec::new();
    kinds.push("symbol".to_owned());
    kinds.push("content".to_owned());
    kinds.push("regex".to_owned());
    kinds.push("callers".to_owned());
    assert(strs(kinds@) =~= seq!["symbol"@, "content"@, "regex"@, "callers"@]);
    let mut o = members();
    with(&mut o, "type", text("string"));
    with(&mut o, "enum", texts(&kinds));
    with(&mut o, "default", text("symbol"));
    with(&mut o, "description", text("Search type. symbol: structural definitions + usages. content: literal text. regex: regex pattern. callers: find all call sites of a symbol."));
    assert(members_view(o@) =~= kind_property()->Object_0);
    object(o)
}

/// The property that lists several paths.
pub open spec fn paths_property() -> JsonView {
    JsonView::Object(
        seq![
            ("type"@, JsonView::Text("array"@)),
            ("items"@, JsonView::Object(seq![("type"@, JsonView::Text("string"@))])),
            (
                "description"@,
                JsonView::Text("Multiple file paths to read in one call. Each file gets independent smart handling. Saves round-trips vs multiple single reads."@),
            ),
        ],
    )
}

fn paths_property_of() -> (r: JsonValue)
    ensures
        r@ == paths_property(),
{
    let mut items = members();
    with(&mut items, "type", text("string"));
    assert(members_view(items@) =~= seq![("type"@, JsonView::Text("string"@))]);
    let mut o = members();
    with(&mut o, "type", text("array"));
    with(&mut o, "items", object(items));
    with(&mut o, "description", text("Multiple file paths to read in one call. Each file gets independent smart handling. Saves round-trips vs multiple single reads."));
    assert(members_view(o@) =~= paths_property()->Object_0);
    object(o)
}

/// What an edit is made of.
pub open spec fn edit_schema() -> JsonView {
    schema(
        seq!["start"@, "content"@],
        seq![
            ("start"@, property("string"@, "Start anchor: 'line:hash' (e.g. '42:a3f'). Hash from tilth_read hashline output."@)),
            ("end"@, property("string"@, "End anchor: 'line:hash'. If omitted, replaces only the start line."@)),
            ("content"@, property("string"@, "Replacement text (can be multi-line). Empty string to delete the line(s)."@)),
        ],
    )
}

fn edit_schema_of() -> (r: JsonValue)
    ensures
        r@ == edit_schema(),
{
    let mut p = members();
    with(&mut p, "start", property_of("string", "Start anchor: 'line:hash' (e.g. '42:a3f'). Hash from tilth_read hashline output."));
    with(&mut p, "end", property_of("string", "End anchor: 'line:hash'. If omitted, replaces only the start line."));
    with(&mut p, "content", property_of("string", "Replacement text (can be multi-line). Empty string to delete the line(s)."));
    let ghost want = seq![
        ("start"@, property("string"@, "Start anchor: 'line:hash' (e.g. '42:a3f'). Hash from tilth_read hashline output."@)),
        ("end"@, property("string"@, "End anchor: 'line:hash'. If omitted, replaces only the start line."@)),
        ("content"@, property("string"@, "Replacement text (can be multi-line). Empty string to delete the line(s)."@)),
    ];
    assert(members_view(p@) =~= want);
    let mut needed: Vec<String> = Vec::new();
    needed.push("start".to_owned());
    needed.push("content".to_owned());
    assert(strs(needed@) =~= seq!["start"@, "content"@]);
    make_schema(needed, p)
}

/// The property that lists the edits.
pub open spec fn edits_property() -> JsonView {
    JsonView::Object(
        seq![
            ("type"@, JsonView::Text("array"@)),
            ("description"@, JsonView::Text("Array of edit operations, applied atomically."@)),
            ("items"@, edit_schema()),
        ],
    )
}

fn edits_property_of() -> (r: JsonValue)
    ensures
        r@ == edits_property(),
{
    let mut o = members();
    with(&mut o, "type", text("array"));
    with(&mut o, "description", text("Array of edit operations, applied atomically."));
    with(&mut o, "items", edit_schema_of());
    assert(members_view(o@) =~= edits_property()->Object_0);
    object(o)
}

/// The definition of `tilth_search`.
pub open spec fn search_tool() -> JsonView {
    tool_view(
        "tilth_search"@,
        "Search for symbols, text, or regex patterns in code. Replaces grep/rg and the host Grep tool — use this for all code search. Symbol search returns definitions first (via tree-sitter AST), then usages, with full source code inlined for top matches. Content search finds literal text. Regex search supports full regex patterns. For cross-file tracing, pass comma-separated symbol names (max 5)."@,
        schema(
            seq!["query"@],
            seq![
                ("query"@, property("string"@, "Symbol name, text string, or regex pattern to search for. e.g. 'resolve_dependencies' or 'ServeHTTP,Next' for multi-symbol lookup."@)),
                ("scope"@, property("string"@, "Only use scope to search a specific subdirectory. DO NOT USE scope if you want to search the current working directory (initial search)."@)),
                ("kind"@, kind_property()),
                ("expand"@, property_with_default("number"@, JsonView::Number(2), "Number of top matches to expand with full source code. Definitions show the full function/class body. Usages show ±10 context lines."@)),
                ("context"@, property("string"@, "Path to the file the agent is currently editing. Boosts ranking of matches in the same directory or package."@)),
                ("budget"@, property("number"@, "Max tokens in response."@)),
            ],
        ),
    )
}

fn make_search_tool() -> (r: JsonValue)
    ensures
        r@ == search_tool(),
{
    let mut p = members();
    with(&mut p, "query", property_of("string", "Symbol name, text string, or regex pattern to search for. e.g. 'resolve_dependencies' or 'ServeHTTP,Next' for multi-symbol lookup."));
    with(&mut p, "scope", property_of("string", "Only use scope to search a specific subdirectory. DO NOT USE scope if you want to search the current working directory (initial search)."));
    with(&mut p, "kind", kind_property_of());
    with(&mut p, "expand", property_with_default_of("number", number(2), "Number of top matches to expand with full source code. Definitions show the full function/class body. Usages show ±10 context lines."));
    with(&mut p, "context", property_of("string", "Path to the file the agent is currently editing. Boosts ranking of matches in the same directory or package."));
    with(&mut p, "budget", property_of("number", "Max tokens in response."));
    let ghost want = seq![
        ("query"@, property("string"@, "Symbol name, text string, or regex pattern to search for. e.g. 'resolve_dependencies' or 'ServeHTTP,Next' for multi-symbol lookup."@)),
        ("scope"@, property("string"@, "Only use scope to search a specific subdirectory. DO NOT USE scope if you want to search the current working directory (initial search)."@)),
        ("kind"@, kind_property()),
        ("expand"@, property_with_default("number"@, JsonView::Number(2), "Number of top matches to expand with full source code. Definitions show the full function/class body. Usages show ±10 context lines."@)),
        ("context"@, property("string"@, "Path to the file the agent is currently editing. Boosts ranking of matches in the same directory or package."@)),
        ("budget"@, property("number"@, "Max tokens in response."@)),
    ];
    assert(members_view(p@) =~= want);
    let mut needed: Vec<String> = Vec::new();
    needed.push("query".to_owned());
    assert(strs(needed@) =~= seq!["query"@]);
    make_tool("tilth_search", "Search for symbols, text, or regex patterns in code. Replaces grep/rg and the host Grep tool — use this for all code search. Symbol search returns definitions first (via tree-sitter AST), then usages, with full source code inlined for top matches. Content search finds literal text. Regex search supports full regex patterns. For cross-file tracing, pass comma-separated symbol names (max 5).", make_schema(needed, p))
}

/// The definition of `tilth_read`.
pub open spec fn read_tool(edit_mode: bool) -> JsonView {
    tool_view(
        "tilth_read"@,
        read_description(edit_mode),
        schema(
            Seq::empty(),
            seq![
                ("path"@, property("string"@, "Absolute or relative file path to read."@)),
                ("paths"@, paths_property()),
                ("section"@, property("string"@, "Line range e.g. '45-89', or heading e.g. '## Architecture'. Bypasses smart view."@)),
                ("full"@, property_with_default("boolean"@, JsonView::Bool(false), "Force full content output, bypass smart outlining."@)),
                ("budget"@, property("number"@, "Max tokens in response."@)),
            ],
        ),
    )
}

fn make_read_tool(edit_mode: bool) -> (r: JsonValue)
    ensures
        r@ == read_tool(edit_mode),
{
    let mut p = members();
    with(&mut p, "path", property_of("string", "Absolute or relative file path to read."));
    with(&mut p, "paths", paths_property_of());
    with(&mut p, "section", property_of("string", "Line range e.g. '45-89', or heading e.g. '## Architecture'. Bypasses smart view."));
    with(&mut p, "full", property_with_default_of("boolean", JsonValue::Bool(false), "Force full content output, bypass smart outlining."));
    with(&mut p, "budget", property_of("number", "Max tokens in response."));
    let ghost want = seq![
        ("path"@, property("string"@, "Absolute or relative file path to read."@)),
        ("paths"@, paths_property()),
        ("section"@, property("string"@, "Line range e.g. '45-89', or heading e.g. '## Architecture'. Bypasses smart view."@)),
        ("full"@, property_with_default("boolean"@, JsonView::Bool(false), "Force full content output, bypass smart outlining."@)),
        ("budget"@, property("number"@, "Max tokens in response."@)),
    ];
    assert(members_view(p@) =~= want);
    let mut needed: Vec<String> = Vec::new();
    assert(strs(needed@) =~= Seq::<Seq<char>>::empty());
    make_tool("tilth_read", read_description_of(edit_mode), make_schema(needed, p))
}

/// The definition of `tilth_files`.
pub open spec fn files_tool() -> JsonView {
    tool_view(
        "tilth_files"@,
        "Find files matching a glob pattern. Replaces find/ls/pwd and the host Glob tool — use this for all file discovery. Returns matched file paths sorted by relevance with token size estimates. Respects .gitignore."@,
        schema(
            seq!["pattern"@],
            seq![
                ("pattern"@, property("string"@, "Glob pattern e.g. '*' (list directory), '*.rs', 'src/**/*.ts'"@)),
                ("scope"@, property("string"@, "Only use scope to list a specific subdirectory. DO NOT USE scope if you want to list the current working directory."@)),
                ("budget"@, property("number"@, "Max tokens in response."@)),
            ],
        ),
    )
}

fn make_files_tool() -> (r: JsonValue)
    ensures
        r@ == files_tool(),
{
    let mut p = members();
    with(&mut p, "pattern", property_of("string", "Glob pattern e.g. '*' (list directory), '*.rs', 'src/**/*.ts'"));
    with(&mut p, "scope", property_of("string", "Only use scope to list a specific subdirectory. DO NOT USE scope if you want to list the current working directory."));
    with(&mut p, "budget", property_of("number", "Max tokens in response."));
    let ghost want = seq![
        ("pattern"@, property("string"@, "Glob pattern e.g. '*' (list directory), '*.rs', 'src/**/*.ts'"@)),
        ("scope"@, property("string"@, "Only use scope to list a specific subdirectory. DO NOT USE scope if you want to list the current working directory."@)),
        ("budget"@, property("number"@, "Max tokens in response."@)),
    ];
    assert(members_view(p@) =~= want);
    let mut needed: Vec<String> = Vec::new();
    needed.push("pattern".to_owned());
    assert(strs(needed@) =~= seq!["pattern"@]);
    make_tool("tilth_files", "Find files matching a glob pattern. Replaces find/ls/pwd and the host Glob tool — use this for all file discovery. Returns matched file paths sorted by relevance with token size estimates. Respects .gitignore.", make_schema(needed, p))
}

/// The definition of `tilth_deps`.
pub open spec fn deps_tool() -> JsonView {
    tool_view(
        "tilth_deps"@,
        "Blast-radius check before breaking changes. Shows what a file imports (local + external) and what other files call its exports, with symbol-level detail. Use ONLY when your planned edit changes a function signature, removes/renames an export, or modifies behavior that callers rely on. Do NOT use for reading files, adding new code, or internal-only changes — use tilth_read instead."@,
        schema(
            seq!["path"@],
            seq![
                ("path"@, property("string"@, "File to check before making breaking changes."@)),
                ("scope"@, property("string"@, "Directory to search for dependents. Default: project root."@)),
                ("budget"@, property("number"@, "Max tokens. Truncates 'Used by' first."@)),
            ],
        ),
    )
}

fn make_deps_tool() -> (r: JsonValue)
    ensures
        r@ == deps_tool(),
{
    let mut p = members();
    with(&mut p, "path", property_of("string", "File to check before making breaking changes."));
    with(&mut p, "scope", property_of("string", "Directory to search for dependents. Default: project root."));
    with(&mut p, "budget", property_of("number", "Max tokens. Truncates 'Used by' first."));
    let ghost want = seq![
        ("path"@, property("string"@, "File to check before making breaking changes."@)),
        ("scope"@, property("string"@, "Directory to search for dependents. Default: project root."@)),
        ("budget"@, property("number"@, "Max tokens. Truncates 'Used by' first."@)),
    ];
    assert(members_view(p@) =~= want);
    let mut needed: Vec<String> = Vec::new();
    needed.push("path".to_owned());
    assert(strs(needed@) =~= seq!["path"@]);
    make_tool("tilth_deps", "Blast-radius check before breaking changes. Shows what a file imports (local + external) and what other files call its exports, with symbol-level detail. Use ONLY when your planned edit changes a function signature, removes/renames an export, or modifies behavior that callers rely on. Do NOT use for reading files, adding new code, or internal-only changes — use tilth_read instead.", make_schema(needed, p))
}

/// The definition of `tilth_edit`.
pub open spec fn edit_tool() -> JsonView {
    tool_view(
        "tilth_edit"@,
        "Apply edits to a file using hashline anchors from tilth_read. Each edit targets a line range by line:hash anchors. Edits are verified against content hashes and rejected if the file has changed since the last read."@,
        schema(
            seq!["path"@, "edits"@],
            seq![
                ("path"@, property("string"@, "Absolute or relative file path to edit."@)),
                ("edits"@, edits_property()),
            ],
        ),
    )
}

fn make_edit_tool() -> (r: JsonValue)
    ensures
        r@ == edit_tool(),
{
    let mut p = members();
    with(&mut p, "path", property_of("string", "Absolute or relative file path to edit."));
    with(&mut p, "edits", edits_property_of());
    let ghost want = seq![
        ("path"@, property("string"@, "Absolute or relative file path to edit."@)),
        ("edits"@, edits_property()),
    ];
    assert(members_view(p@) =~= want);
    let mut needed: Vec<String> = Vec::new();
    needed.push("path".to_owned());
    needed.push("edits".to_owned());
    assert(strs(needed@) =~= seq!["path"@, "edits"@]);
    make_tool("tilth_edit", "Apply edits to a file using hashline anchors from tilth_read. Each edit targets a line range by line:hash anchors. Edits are verified against content hashes and rejected if the file has changed since the last read.", make_schema(needed, p))
}

/// The tools that are offered: searching, reading, files and dependencies, and editing
/// where files can be edited.
pub open spec fn tools(edit_mode: bool) -> Seq<JsonView> {
    let always = seq![search_tool(), read_tool(edit_mode), files_tool(), deps_tool()];
    if edit_mode {
        always.push(edit_tool())
    } else {
        always
    }
}

/// The definitions of the tools that are offered.
pub fn tool_definitions(edit_mode: bool) -> (r: Vec<JsonValue>)
    ensures
        values_view(r@) == tools(edit_mode),
{
    let mut v: Vec<JsonValue> = Vec::new();
    v.push(make_search_tool());
    v.push(make_read_tool(edit_mode));
    v.push(make_files_tool());
    v.push(make_deps_tool());
    if edit_mode {
        v.push(make_edit_tool());
    }
    assert(values_view(v@) =~= tools(edit_mode));
    v
}

/// The name of a tool that is defined.
pub open spec fn defined_name(t: JsonView) -> Seq<char> {
    t->Object_0[0].1->Text_0
}

/// The tool that edits is offered exactly where files can be edited; all others are
/// offered always, and each once.
pub proof fn law_tools_offered(edit_mode: bool)
    ensures
        tools(edit_mode).map_values(|t: JsonView| defined_name(t)) == (if edit_mode {
            seq!["tilth_search"@, "tilth_read"@, "tilth_files"@, "tilth_deps"@, "tilth_edit"@]
        } else {
            seq!["tilth_search"@, "tilth_read"@, "tilth_files"@, "tilth_deps"@]
        }),
{
    let names = tools(edit_mode).map_values(|t: JsonView| defined_name(t));
    if edit_mode {
        assert(names =~= seq![
            "tilth_search"@,
            "tilth_read"@,
            "tilth_files"@,
            "tilth_deps"@,
            "tilth_edit"@,
        ]);
    } else {
        assert(names =~= seq!["tilth_search"@, "tilth_read"@, "tilth_files"@, "tilth_deps"@]);
    }
}

} // verus!
