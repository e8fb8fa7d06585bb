use tilth::json::{get, list, members, number, object, text, with, JsonValue};
use tilth::mcp::tools::{server_instructions, tool_definitions};
use tilth::mcp::{
    abandoned_warning, after_warning, apply_budget, batch_failure, batch_step, batch_text, batch_timeout,
    dispatch_tool, edit_args, edit_error, handle_request, mismatch_message, parse_error, related_hint,
    request_timeout, resolve_scope, search_queries, timeout_message, tool_named, tool_result, BatchStep,
    Reply, SearchFor, Tool, ToolCall,
};

fn args(pairs: Vec<(&str, JsonValue)>) -> JsonValue {
    let mut o = members();
    for (name, value) in pairs {
        with(&mut o, name, value);
    }
    object(o)
}

fn string(v: Option<&JsonValue>) -> String {
    match v {
        Some(JsonValue::Text(s)) => s.clone(),
        other => panic!("expected a text, got {other:?}"),
    }
}

fn failure(tool: &str, a: JsonValue) -> String {
    dispatch_tool(tool, &a, false).unwrap_err()
}

#[test]
fn tools_offered_by_mode() {
    let names = |mode: bool| -> Vec<String> {
        tool_definitions(mode)
            .iter()
            .map(|t| string(get(t, "name")))
            .collect()
    };
    assert_eq!(
        names(false),
        vec!["tilth_search", "tilth_read", "tilth_files", "tilth_deps"]
    );
    assert_eq!(
        names(true),
        vec!["tilth_search", "tilth_read", "tilth_files", "tilth_deps", "tilth_edit"]
    );
    for mode in [false, true] {
        for name in names(mode) {
            assert!(tool_named(&name, mode).is_ok());
        }
    }
}

#[test]
fn tool_schemas() {
    let tools = tool_definitions(true);
    let search = get(&tools[0], "inputSchema").unwrap();
    match get(search, "required").unwrap() {
        JsonValue::List(l) => {
            assert_eq!(l.len(), 1);
            assert_eq!(string(l.first()), "query");
        }
        other => panic!("expected a list, got {other:?}"),
    }
    let kind = get(get(search, "properties").unwrap(), "kind").unwrap();
    match get(kind, "enum").unwrap() {
        JsonValue::List(l) => {
            let kinds: Vec<String> = l.iter().map(|k| string(Some(k))).collect();
            assert_eq!(kinds, vec!["symbol", "content", "regex", "callers"]);
        }
        other => panic!("expected a list, got {other:?}"),
    }
    // Reading needs no parameter of its own.
    assert!(get(get(&tools[1], "inputSchema").unwrap(), "required").is_none());
    assert!(string(get(&tools[1], "description")).contains("hashline"));
    assert!(!string(get(&tool_definitions(false)[1], "description")).contains("hashline"));
}

#[test]
fn instructions_by_mode() {
    let plain = server_instructions(false);
    let editing = server_instructions(true);
    assert!(plain.starts_with("tilth — code intelligence MCP server."));
    assert!(editing.starts_with(&plain));
    assert!(editing[plain.len()..].starts_with("\n\ntilth_edit: Edit files using hash-anchored lines."));
    assert!(!plain.contains("tilth_edit:"));
}

#[test]
fn requests_are_answered() {
    match handle_request("initialize", false, "1.2.3") {
        Reply::Value(v) => {
            assert_eq!(string(get(&v, "protocolVersion")), "2024-11-05");
            assert_eq!(string(get(get(&v, "serverInfo").unwrap(), "version")), "1.2.3");
            assert_eq!(string(get(&v, "instructions")), server_instructions(false));
        }
        other => panic!("expected a value, got {other:?}"),
    }
    match handle_request("tools/list", true, "1") {
        Reply::Value(v) => match get(&v, "tools").unwrap() {
            JsonValue::List(l) => assert_eq!(l.len(), 5),
            other => panic!("expected a list, got {other:?}"),
        },
        other => panic!("expected a value, got {other:?}"),
    }
    assert!(matches!(handle_request("tools/call", false, "1"), Reply::Call));
    assert!(matches!(handle_request("ping", false, "1"), Reply::Value(JsonValue::Object(o)) if o.is_empty()));
    match handle_request("resources/list", false, "1") {
        Reply::Error { code, message } => {
            assert_eq!(code, -32601);
            assert_eq!(message, "method not found: resources/list");
        }
        other => panic!("expected an error, got {other:?}"),
    }
    match parse_error("eof") {
        Reply::Error { code, message } => {
            assert_eq!(code, -32700);
            assert_eq!(message, "parse error: eof");
        }
        other => panic!("expected an error, got {other:?}"),
    }
}

#[test]
fn results_are_wrapped() {
    let ok = tool_result(&Ok("fine".to_string()));
    match get(&ok, "content").unwrap() {
        JsonValue::List(l) => assert_eq!(string(get(&l[0], "text")), "fine"),
        other => panic!("expected a list, got {other:?}"),
    }
    assert!(get(&ok, "isError").is_none());
    let bad = tool_result(&Err("broken".to_string()));
    assert!(matches!(get(&bad, "isError"), Some(JsonValue::Bool(true))));
}

#[test]
fn unknown_and_disabled_tools() {
    assert_eq!(tool_named("tilth_read", false), Ok(Tool::Read));
    assert_eq!(tool_named("tilth_session", false), Ok(Tool::Session));
    assert_eq!(tool_named("tilth_edit", true), Ok(Tool::Edit));
    assert_eq!(
        tool_named("tilth_edit", false),
        Err("unknown tool: tilth_edit".to_string())
    );
    assert_eq!(
        tool_named("tilth_map", true),
        Err("tilth_map is disabled — use tilth_search instead".to_string())
    );
    assert_eq!(tool_named("", false), Err("unknown tool: ".to_string()));
}

#[test]
fn read_calls() {
    let call = dispatch_tool(
        "tilth_read",
        &args(vec![
            ("path", text("a.rs")),
            ("section", text("1-2")),
            ("full", JsonValue::Bool(true)),
            ("budget", number(9)),
        ]),
        false,
    );
    match call {
        Ok(ToolCall::Read { path, section, full, budget }) => {
            assert_eq!(path, "a.rs");
            assert_eq!(section.as_deref(), Some("1-2"));
            assert!(full);
            assert_eq!(budget, Some(9));
        }
        other => panic!("expected a read, got {other:?}"),
    }
    assert_eq!(
        failure("tilth_read", JsonValue::Null),
        "missing required parameter: path (or use paths for batch read)"
    );
    let many = list((0..21).map(|i| text(&format!("f{i}"))).collect());
    assert_eq!(
        failure("tilth_read", args(vec![("paths", many)])),
        "batch read limited to 20 files (got 21)"
    );
    let some = list((0..20).map(|i| text(&format!("f{i}"))).collect());
    assert!(matches!(
        dispatch_tool("tilth_read", &args(vec![("paths", some)]), false),
        Ok(ToolCall::ReadBatch { paths, budget: None }) if paths.len() == 20
    ));
}

#[test]
fn batches_step_by_step() {
    let paths = vec![Some("a".to_string()), None];
    assert!(matches!(batch_step(&paths, 0, false), BatchStep::Read(p) if p == "a"));
    assert!(matches!(
        batch_step(&paths, 1, false),
        BatchStep::Bad(e) if e == "paths must be an array of strings"
    ));
    assert!(matches!(
        batch_step(&paths, 1, true),
        BatchStep::Late(e) if e == "# batch read stopped — deadline exceeded after 1/2 files. Reduce batch size or set TILTH_BATCH_TIMEOUT=<seconds>."
    ));
    assert!(matches!(batch_step(&paths, 2, true), BatchStep::Done));
    assert_eq!(batch_failure("a", "gone"), "# a — error: gone");
    assert_eq!(batch_text(&["x".to_string(), "y".to_string()]), "x\n\ny");
    assert_eq!(related_hint("out", &[]), "out");
    assert_eq!(
        related_hint("out", &["a".to_string(), "b".to_string()]),
        "out\n\n> Related: a, b"
    );
}

#[test]
fn search_calls() {
    let call = dispatch_tool("tilth_search", &args(vec![("query", text(" a, b ,,"))]), false);
    match call {
        Ok(ToolCall::Search { what: SearchFor::Symbols(v), scope, expand, context, budget }) => {
            assert_eq!(v, vec!["a", "b"]);
            assert_eq!(scope, ".");
            assert_eq!(expand, 2);
            assert_eq!(context, None);
            assert_eq!(budget, None);
        }
        other => panic!("expected a search, got {other:?}"),
    }
    assert_eq!(search_queries("x,y"), vec!["x", "y"]);
    let of_kind = |kind: &str, query: &str| {
        dispatch_tool(
            "tilth_search",
            &args(vec![("query", text(query)), ("kind", text(kind)), ("expand", number(0))]),
            false,
        )
    };
    assert!(matches!(of_kind("content", "a,b"), Ok(ToolCall::Search { what: SearchFor::Content(q), expand: 0, .. }) if q == "a,b"));
    assert!(matches!(of_kind("regex", "a+"), Ok(ToolCall::Search { what: SearchFor::Regex(_), .. })));
    assert!(matches!(of_kind("callers", "a"), Ok(ToolCall::Search { what: SearchFor::Callers(_), .. })));
    assert_eq!(
        of_kind("files", "a").unwrap_err(),
        "unknown search kind: files. Use: symbol, content, regex, callers"
    );
    assert_eq!(of_kind("symbol", " , ").unwrap_err(), "missing required parameter: query");
    assert_eq!(
        of_kind("symbol", "a,b,c,d,e,f").unwrap_err(),
        "multi-symbol search limited to 5 queries (got 6)"
    );
    assert_eq!(failure("tilth_search", args(vec![])), "missing required parameter: query");
}

#[test]
fn other_calls() {
    assert_eq!(failure("tilth_files", args(vec![])), "missing required parameter: pattern");
    assert_eq!(failure("tilth_deps", args(vec![])), "missing required parameter: path");
    assert!(matches!(
        dispatch_tool("tilth_files", &args(vec![("pattern", text("*.rs")), ("scope", text("src"))]), false),
        Ok(ToolCall::Files { pattern, scope, budget: None }) if pattern == "*.rs" && scope == "src"
    ));
    assert!(matches!(
        dispatch_tool("tilth_session", &args(vec![("action", text("reset"))]), false),
        Ok(ToolCall::Session { reset: true })
    ));
    assert!(matches!(
        dispatch_tool("tilth_session", &JsonValue::Null, false),
        Ok(ToolCall::Session { reset: false })
    ));
    let edit = |a: JsonValue| dispatch_tool("tilth_edit", &a, true);
    assert_eq!(edit(args(vec![])).unwrap_err(), "missing required parameter: path");
    assert_eq!(
        edit(args(vec![("path", text("a"))])).unwrap_err(),
        "missing required parameter: edits"
    );
    assert!(matches!(
        edit(args(vec![("path", text("a")), ("edits", list(vec![]))])),
        Ok(ToolCall::Edit { path }) if path == "a"
    ));
}

#[test]
fn edits_are_checked() {
    let none = edit_args(&args(vec![]));
    assert_eq!(edit_error(0, &none, true, true).as_deref(), Some("edit[0]: missing 'start'"));
    let whole = edit_args(&args(vec![
        ("start", text("1:abc")),
        ("end", text("2:xyz")),
        ("content", text("")),
    ]));
    assert_eq!(edit_error(1, &whole, true, true), None);
    assert_eq!(
        edit_error(1, &whole, false, true).as_deref(),
        Some("edit[1]: invalid start anchor '1:abc'")
    );
    assert_eq!(
        edit_error(1, &whole, true, false).as_deref(),
        Some("edit[1]: invalid end anchor '2:xyz'")
    );
    let bare = edit_args(&args(vec![("start", text("1:abc"))]));
    assert_eq!(
        edit_error(2, &bare, true, false).as_deref(),
        Some("edit[2]: missing 'content'")
    );
    assert_eq!(
        mismatch_message("3:def"),
        "hash mismatch — file changed since last read:\n\n3:def"
    );
}

#[test]
fn scopes_are_resolved() {
    assert_eq!(resolve_scope(".", "/home/me", "/home/me/", true), (".".to_string(), None));
    assert_eq!(
        resolve_scope("nowhere", "nowhere", "/home/me", false),
        (
            ".".to_string(),
            Some("scope \"nowhere\" is not a valid directory, searching current directory instead.\n\n".to_string())
        )
    );
    assert_eq!(
        resolve_scope("src", "/home/me/src", "/home/me", true),
        ("/home/me/src".to_string(), None)
    );
    assert_eq!(after_warning(&None, "out"), "out");
    assert_eq!(after_warning(&Some("w: ".to_string()), "out"), "w: out");
}

#[test]
fn times_and_budgets() {
    assert_eq!(request_timeout(None), 90);
    assert_eq!(request_timeout(Some("5")), 5);
    assert_eq!(request_timeout(Some("soon")), 90);
    assert_eq!(batch_timeout(None), 60);
    assert_eq!(batch_timeout(Some("7")), 7);
    assert_eq!(
        timeout_message(90),
        "tool timed out after 90s — the operation took too long. Try: reduce scope, use section instead of full, or set TILTH_TIMEOUT=<seconds> to increase the limit."
    );
    assert_eq!(abandoned_warning(2), None);
    assert_eq!(
        abandoned_warning(3).as_deref(),
        Some("tilth: warning: 3 abandoned threads still running. Consider reducing scope or increasing TILTH_TIMEOUT.")
    );
    let cut = |s: String, n: u64| s[..n as usize].to_string();
    assert_eq!(apply_budget("abcdef".to_string(), None, cut), "abcdef");
    assert_eq!(apply_budget("abcdef".to_string(), Some(2), cut), "ab");
}
