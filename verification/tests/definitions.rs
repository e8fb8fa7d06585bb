use tilth::search::symbol::{find_defs_treesitter, FileFacts};
use tilth::types::Lang;

#[test]
fn rust_definitions_detected() {
    let code = r#"pub fn hello(name: &str) -> String {
    format!("Hello, {}", name)
}

pub struct Foo {
    bar: i32,
}

pub(crate) fn dispatch_tool(tool: &str) -> Result<String, String> {
    match tool {
        "read" => Ok("read".to_string()),
        _ => Err("unknown".to_string()),
    }
}
"#;
    let file = FileFacts {
        path: "test.rs".to_string(),
        file_lines: 15,
        mtime: 0,
    };

    let defs = find_defs_treesitter(&file, "hello", code, Lang::Rust);
    assert!(!defs.is_empty(), "should find 'hello' definition");
    assert!(defs[0].is_definition);
    assert!(defs[0].def_range.is_some());

    let defs = find_defs_treesitter(&file, "Foo", code, Lang::Rust);
    assert!(!defs.is_empty(), "should find 'Foo' definition");

    let defs = find_defs_treesitter(&file, "dispatch_tool", code, Lang::Rust);
    assert!(!defs.is_empty(), "should find 'dispatch_tool' definition");
}
