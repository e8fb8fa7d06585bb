use tilth::classify::{classify, is_dotted_symbol, is_identifier, QueryType};

#[test]
fn regex_patterns() {
    assert!(matches!(
        classify("/render(Call|Result)/", ".", false),
        QueryType::Regex(_)
    ));
    assert!(matches!(
        classify("/renderC[a-z]+/", ".", false),
        QueryType::Regex(_)
    ));
    assert!(matches!(
        classify("/renderC[a-z]{3}/", ".", false),
        QueryType::Regex(_)
    ));
    assert!(matches!(
        classify("/renderC.*/", ".", false),
        QueryType::Regex(_)
    ));
    // Single slash or empty pattern should not be regex
    assert!(!matches!(classify("//", ".", false), QueryType::Regex(_)));
    // Inner slashes = path, not regex
    assert!(!matches!(
        classify("/src/lib.rs/", ".", false),
        QueryType::Regex(_)
    ));
    assert!(!matches!(classify("/src/", ".", false), QueryType::Regex(_)));
}

#[test]
fn glob_patterns() {
    assert!(matches!(classify("*.test.ts", ".", false), QueryType::Glob(_)));
    assert!(matches!(
        classify("src/**/*.rs", ".", false),
        QueryType::Glob(_)
    ));
    assert!(matches!(classify("{a,b}.js", ".", false), QueryType::Glob(_)));
}

#[test]
fn identifiers() {
    assert!(matches!(
        classify("handleAuth", ".", false),
        QueryType::Symbol(_)
    ));
    assert!(matches!(
        classify("handle_auth", ".", false),
        QueryType::Symbol(_)
    ));
    assert!(matches!(
        classify("my-component", ".", false),
        QueryType::Symbol(_)
    ));
    assert!(matches!(
        classify("AuthService.validate", ".", false),
        QueryType::Symbol(_)
    ));
    assert!(matches!(classify("$ref", ".", false), QueryType::Symbol(_)));
    assert!(matches!(classify("@types", ".", false), QueryType::Symbol(_)));
}

#[test]
fn content_queries() {
    assert!(matches!(classify("404", ".", false), QueryType::Content(_)));
    assert!(matches!(
        classify("TODO: fix this", ".", false),
        QueryType::Content(_)
    ));
    assert!(matches!(
        classify("import { X }", ".", false),
        QueryType::Content(_)
    ));
}

#[test]
fn concept_queries() {
    // Single lowercase words → concept, not symbol
    assert!(matches!(
        classify("thinking", ".", false),
        QueryType::Concept(_)
    ));
    assert!(matches!(classify("alias", ".", false), QueryType::Concept(_)));
    assert!(matches!(classify("cli", ".", false), QueryType::Concept(_)));
    assert!(matches!(classify("mode", ".", false), QueryType::Concept(_)));
    assert!(matches!(classify("config", ".", false), QueryType::Concept(_)));
    assert!(matches!(classify("server", ".", false), QueryType::Concept(_)));
    // Multi-word phrases → concept
    assert!(matches!(
        classify("cli mode", ".", false),
        QueryType::Concept(_)
    ));
    assert!(matches!(
        classify("search flow", ".", false),
        QueryType::Concept(_)
    ));
    assert!(matches!(
        classify("model mapping", ".", false),
        QueryType::Concept(_)
    ));
}

#[test]
fn symbol_not_concept() {
    // PascalCase → symbol
    assert!(matches!(
        classify("SearchResult", ".", false),
        QueryType::Symbol(_)
    ));
    assert!(matches!(classify("MapModel", ".", false), QueryType::Symbol(_)));
    // camelCase → symbol
    assert!(matches!(
        classify("handleAuth", ".", false),
        QueryType::Symbol(_)
    ));
    assert!(matches!(
        classify("thinkingBudget", ".", false),
        QueryType::Symbol(_)
    ));
    // snake_case → symbol
    assert!(matches!(
        classify("is_test_file", ".", false),
        QueryType::Symbol(_)
    ));
    assert!(matches!(
        classify("handle_auth", ".", false),
        QueryType::Symbol(_)
    ));
    // dotted → symbol
    assert!(matches!(
        classify("Auth.validate", ".", false),
        QueryType::Symbol(_)
    ));
}

#[test]
fn is_identifier_checks() {
    assert!(is_identifier("handleAuth"));
    assert!(is_identifier("_private"));
    assert!(is_identifier("$ref"));
    assert!(is_identifier("@decorator"));
    assert!(is_identifier("my-component"));
    assert!(is_identifier("Auth.validate"));
    assert!(!is_identifier(""));
    assert!(!is_identifier("has space"));
    assert!(!is_identifier("123start"));
}

#[test]
fn or_pattern_queries() {
    // Pipe-separated identifiers → regex
    assert!(matches!(
        classify("Config|Security|Auth", ".", false),
        QueryType::Regex(_)
    ));
    assert!(matches!(
        classify("handleAuth|handleLogin", ".", false),
        QueryType::Regex(_)
    ));
    assert!(matches!(
        classify("TODO|FIXME|HACK", ".", false),
        QueryType::Regex(_)
    ));
    // Single part with trailing pipe → not regex (only 1 non-empty part)
    assert!(!matches!(classify("Foo|", ".", false), QueryType::Regex(_)));
    // Non-identifier parts → not regex
    assert!(!matches!(
        classify("has space|also space", ".", false),
        QueryType::Regex(_)
    ));
    // Already /wrapped/ → regex via step 0, not this check
    assert!(matches!(
        classify("/Foo|Bar/", ".", false),
        QueryType::Regex(_)
    ));
}

#[test]
fn bare_filename_glob_fallback() {
    // File that doesn't exist at scope root → glob fallback
    match classify("ProgramDB.java", ".", false) {
        QueryType::FilePath(_) => {
            // Also acceptable if file happens to exist
        }
        QueryType::Glob(pattern) => {
            assert_eq!(pattern, "**/ProgramDB.java");
        }
        other => panic!("expected FilePath or Glob, got {other:?}"),
    }
    // Known extensionless filename that doesn't exist → glob
    match classify("Dockerfile", ".", false) {
        QueryType::FilePath(_) => {} // exists in tilth repo
        QueryType::Glob(pattern) => {
            assert_eq!(pattern, "**/Dockerfile");
        }
        other => panic!("expected FilePath or Glob, got {other:?}"),
    }
}

#[test]
fn dotted_symbols_and_file_names() {
    assert!(is_dotted_symbol("Auth.validate"));
    assert!(is_dotted_symbol("std.path"));
    assert!(is_dotted_symbol("Auth.get"));
    assert!(!is_dotted_symbol("server.go"));
    assert!(!is_dotted_symbol("config.yaml"));
    assert!(!is_dotted_symbol("ProgramDB.java"));
    assert!(!is_dotted_symbol("index.html"));
    assert!(!is_dotted_symbol("Cargo.lock"));
    assert!(!is_dotted_symbol(".path"));
    assert!(!is_dotted_symbol("path."));
    assert!(matches!(classify("std.path", ".", false), QueryType::Symbol(q) if q == "std.path"));
    assert!(matches!(classify("config.yaml", ".", false), QueryType::Glob(p) if p == "**/config.yaml"));
    assert!(matches!(classify("std.path", ".", true), QueryType::FilePath(_)));
}
