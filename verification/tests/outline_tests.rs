use small_tools::outline::{detect_language, outline_language, SourceLanguage};

#[test]
fn detects_by_extension() {
    assert_eq!(detect_language("src/main.rs"), Some(SourceLanguage::Rust));
    assert_eq!(detect_language("tool.PY"), Some(SourceLanguage::Python));
    assert_eq!(detect_language("lib.hpp"), Some(SourceLanguage::Cpp));
    assert_eq!(detect_language("a.R"), Some(SourceLanguage::R));
    assert_eq!(detect_language("Cargo.toml"), Some(SourceLanguage::Toml));
    assert_eq!(detect_language("notes.txt"), None);
    assert_eq!(detect_language("Makefile"), None);
}

#[test]
fn unknown_language_outlines_as_rust() {
    assert_eq!(outline_language("Makefile"), SourceLanguage::Rust);
    assert_eq!(outline_language("notes.txt"), SourceLanguage::Rust);
    assert_eq!(outline_language("index.js"), SourceLanguage::JavaScript);
    assert_eq!(outline_language("query.sql"), SourceLanguage::Sql);
}
