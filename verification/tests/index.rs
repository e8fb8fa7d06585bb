use tilth::index::symbol::{extract_symbols, is_indexable, SymbolIndex};

#[test]
fn test_empty_index() {
    let index = SymbolIndex::new();
    assert_eq!(index.symbol_count(), 0);
    assert_eq!(index.file_count(), 0);
    assert!(!index.is_built("/tmp"));
    assert!(index.lookup("foo", "/tmp").is_empty());
}

#[test]
fn test_extract_symbols_rust() {
    let content = r#"
pub struct Foo {
    bar: u32,
}

impl Foo {
    pub fn baz(&self) -> u32 {
        self.bar
    }
}

trait MyTrait {
    fn do_thing(&self);
}

impl MyTrait for Foo {
    fn do_thing(&self) {}
}
"#;
    let dir = "/tmp/tilth_test_extract_symbols";
    let path = format!("{dir}/test.rs");

    let symbols = extract_symbols(&path, content);
    let names: Vec<&str> = symbols.iter().map(|(n, _, _)| n.as_str()).collect();

    assert!(names.contains(&"Foo"), "should find struct Foo: {names:?}");
    assert!(names.contains(&"baz"), "should find fn baz: {names:?}");
    assert!(
        names.contains(&"MyTrait"),
        "should find trait MyTrait: {names:?}"
    );
    assert!(
        names.contains(&"do_thing"),
        "should find fn do_thing: {names:?}"
    );

    // All extracted symbols should be definitions
    assert!(symbols.iter().all(|(_, _, is_def)| *is_def));
}

#[test]
fn test_index_file() {
    let content = "pub fn hello() {}\npub fn world() {}";
    let dir = "/tmp/tilth_test_index_file";
    let path = format!("{dir}/test.rs");

    let mut index = SymbolIndex::new();
    index.index_file(&path, content, 1);

    assert_eq!(index.file_count(), 1);
    let results = index.lookup("hello", dir);
    assert_eq!(results.len(), 1);
    assert!(results[0].is_definition);
    assert_eq!(results[0].line, 1);

    let results = index.lookup("world", dir);
    assert_eq!(results.len(), 1);
    assert_eq!(results[0].line, 2);

    // Test incremental update
    let new_content = "pub fn hello() {}\npub fn updated() {}";
    index.index_file(&path, new_content, 2);

    // "world" should be gone, "updated" should be present
    assert!(index.lookup("world", dir).is_empty());
    assert_eq!(index.lookup("updated", dir).len(), 1);
}

#[test]
fn test_lookup_definitions_filter() {
    let content = "pub fn target() {}";
    let dir = "/tmp/tilth_test_lookup_defs";
    let path = format!("{dir}/test.rs");

    let mut index = SymbolIndex::new();
    index.index_file(&path, content, 1);

    let defs = index.lookup_definitions("target", dir);
    assert_eq!(defs.len(), 1);
    assert!(defs[0].is_definition);

    // lookup_definitions with wrong scope should return empty
    let defs = index.lookup_definitions("target", "/nonexistent");
    assert!(defs.is_empty());
}

#[test]
fn test_extract_symbols_typescript() {
    let content = r#"
function greet(name: string): string {
    return `Hello, ${name}!`;
}

class Greeter {
    greeting: string;
    constructor(message: string) {
        this.greeting = message;
    }
}

interface Printable {
    print(): void;
}
"#;
    let dir = "/tmp/tilth_test_extract_ts";
    let path = format!("{dir}/test.ts");

    let symbols = extract_symbols(&path, content);
    let names: Vec<&str> = symbols.iter().map(|(n, _, _)| n.as_str()).collect();

    assert!(
        names.contains(&"greet"),
        "should find function greet: {names:?}"
    );
    assert!(
        names.contains(&"Greeter"),
        "should find class Greeter: {names:?}"
    );
    assert!(
        names.contains(&"Printable"),
        "should find interface Printable: {names:?}"
    );
}

#[test]
fn test_extract_symbols_python() {
    let content = r#"
def hello():
    pass

class MyClass:
    def method(self):
        pass
"#;
    let dir = "/tmp/tilth_test_extract_py";
    let path = format!("{dir}/test.py");

    let symbols = extract_symbols(&path, content);
    let names: Vec<&str> = symbols.iter().map(|(n, _, _)| n.as_str()).collect();

    assert!(names.contains(&"hello"), "should find def hello: {names:?}");
    assert!(
        names.contains(&"MyClass"),
        "should find class MyClass: {names:?}"
    );
}

#[test]
fn files_that_are_indexed() {
    assert!(is_indexable("src/a.rs", 500_000));
    assert!(!is_indexable("src/a.rs", 500_001));
    assert!(!is_indexable("notes.md", 10));
}
