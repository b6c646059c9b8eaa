use ratchet::rules::ast::parser_cache::{create_parser_for_language, parser_outcome};
use ratchet::rules::ast::{ParserCache, ParserError};
use ratchet::types::Language;

#[test]
fn test_parser_cache_creation() {
    let cache = ParserCache::new();
    // Just verify it compiles and constructs
    drop(cache);
}

#[test]
fn test_parser_cache_default() {
    let cache = ParserCache::default();
    drop(cache);
}

#[test]
fn test_rust_parser_loading() {
    let mut cache = ParserCache::new();
    let result = cache.get_parser(Language::Rust);
    assert!(
        result.is_ok(),
        "Rust parser should load when feature is enabled"
    );
}

#[test]
fn test_typescript_parser_loading() {
    let mut cache = ParserCache::new();
    let result = cache.get_parser(Language::TypeScript);
    assert!(
        result.is_ok(),
        "TypeScript parser should load when feature is enabled"
    );
}

#[test]
fn test_javascript_parser_loading() {
    let mut cache = ParserCache::new();
    let result = cache.get_parser(Language::JavaScript);
    assert!(
        result.is_ok(),
        "JavaScript parser should load when feature is enabled"
    );
}

#[test]
fn test_python_parser_loading() {
    let mut cache = ParserCache::new();
    let result = cache.get_parser(Language::Python);
    assert!(
        result.is_ok(),
        "Python parser should load when feature is enabled"
    );
}

#[test]
fn test_go_parser_loading() {
    let mut cache = ParserCache::new();
    let result = cache.get_parser(Language::Go);
    assert!(
        result.is_ok(),
        "Go parser should load when feature is enabled"
    );
}

#[test]
fn test_parser_caching() {
    let mut cache = ParserCache::new();

    // Get parser twice - should succeed both times
    let parser1 = cache.get_parser(Language::Rust);
    assert!(parser1.is_ok(), "First parser load should succeed");

    let parser2 = cache.get_parser(Language::Rust);
    assert!(
        parser2.is_ok(),
        "Second parser load should succeed (from cache)"
    );

    // Verify the cache was populated
    assert!(cache.contains(Language::Rust), "Parser should be cached");
}

#[test]
fn cache_keeps_only_the_languages_asked_for() {
    let mut cache = ParserCache::new();
    assert!(!cache.contains(Language::Go));
    assert!(cache.get_parser(Language::Go).is_ok());
    assert!(cache.contains(Language::Go));
    assert!(!cache.contains(Language::Rust));
    assert!(!cache.contains(Language::Python));
}

#[test]
fn each_parser_reads_its_language() {
    let mut rust = create_parser_for_language(Language::Rust).unwrap();
    let tree = rust.parse("fn main() { let x = 1; }", None).unwrap();
    assert_eq!(tree.root_node().kind(), "source_file");
    assert!(!tree.root_node().has_error());

    let mut python = create_parser_for_language(Language::Python).unwrap();
    let tree = python.parse("def f():\n    return 1\n", None).unwrap();
    assert_eq!(tree.root_node().kind(), "module");
    assert!(!tree.root_node().has_error());

    let mut go = create_parser_for_language(Language::Go).unwrap();
    let tree = go.parse("package main\nfunc main() {}\n", None).unwrap();
    assert!(!tree.root_node().has_error());

    let mut javascript = create_parser_for_language(Language::JavaScript).unwrap();
    let tree = javascript.parse("const x = () => 1;", None).unwrap();
    assert_eq!(tree.root_node().kind(), "program");
    assert!(!tree.root_node().has_error());

    let mut typescript = create_parser_for_language(Language::TypeScript).unwrap();
    let tree = typescript.parse("let x: number = 1;", None).unwrap();
    assert!(!tree.root_node().has_error());
    // Type annotations are no JavaScript.
    let tree = javascript.parse("let x: number = 1;", None).unwrap();
    assert!(tree.root_node().has_error());
}

#[test]
fn parser_error_messages() {
    assert_eq!(
        ParserError::UnsupportedLanguage(Language::Rust).message(),
        "Language Rust is not supported or not enabled via feature flags"
    );
    assert_eq!(
        ParserError::InitializationFailed(Language::TypeScript).message(),
        "Failed to initialize parser for TypeScript"
    );
    assert_eq!(ParserError::LockPoisoned.message(), "Internal cache lock error");
}

#[test]
fn parser_outcome_follows_whether_the_grammar_was_taken() {
    let refused = parser_outcome(Language::Python, tree_sitter::Parser::new(), false);
    assert!(matches!(
        refused,
        Err(ParserError::InitializationFailed(Language::Python))
    ));

    let mut parser = tree_sitter::Parser::new();
    parser.set_language(&tree_sitter_go::language()).unwrap();
    let mut taken = parser_outcome(Language::Go, parser, true).unwrap();
    let tree = taken.parse("package main\n", None).unwrap();
    assert_eq!(tree.root_node().kind(), "source_file");
    assert!(!tree.root_node().has_error());
}

/// The grammar that is built in for `language`.
fn grammar(language: Language) -> tree_sitter::Language {
    match language {
        Language::Rust => tree_sitter_rust::language(),
        Language::TypeScript => tree_sitter_typescript::language_typescript(),
        Language::JavaScript => tree_sitter_javascript::language(),
        Language::Python => tree_sitter_python::language(),
        Language::Go => tree_sitter_go::language(),
    }
}

const LANGUAGES: [Language; 5] = [
    Language::Rust,
    Language::TypeScript,
    Language::JavaScript,
    Language::Python,
    Language::Go,
];

#[test]
fn a_new_parser_holds_the_grammar_of_its_language() {
    for language in LANGUAGES {
        let parser = create_parser_for_language(language).unwrap();
        assert_eq!(parser.language(), Some(grammar(language)), "{:?}", language);
        for other in LANGUAGES {
            if other != language {
                assert_ne!(parser.language(), Some(grammar(other)), "{:?}", language);
            }
        }
    }
}

#[test]
fn the_cache_hands_out_parsers_of_the_language_asked_for() {
    let mut cache = ParserCache::new();
    for language in LANGUAGES {
        let first = cache.get_parser(language).unwrap();
        assert_eq!(first.language(), Some(grammar(language)));
        assert!(cache.contains(language));
    }
    // Asked for again, every language gives a parser of the same language.
    for language in LANGUAGES {
        let again = cache.get_parser(language).unwrap();
        assert_eq!(again.language(), Some(grammar(language)));
    }
}
