use vstd::prelude::*;
use tree_parser::Language::{
    Bash, CSharp, Cpp, Css, Go, Haskell, Html, Java, JavaScript, Json, Kotlin, Lua, Perl, Php, PowerShell, Python, Ruby,
    Rust, Scala, Sql, Swift, Toml, TypeScript, Xml, Yaml, C, R,
};
use crate::outline::SourceLanguage as S;

verus! {

/// The languages a source file can be outlined in.
#[derive(Debug, Clone, Copy, PartialEq, Eq, Structural)]
pub enum SourceLanguage {
    Python,
    Rust,
    JavaScript,
    TypeScript,
    Java,
    C,
    Cpp,
    Go,
    CSharp,
    Php,
    Ruby,
    Swift,
    Kotlin,
    Scala,
    Haskell,
    Lua,
    Perl,
    R,
    Bash,
    PowerShell,
    Html,
    Css,
    Sql,
    Json,
    Yaml,
    Toml,
    Xml,
}

/// The language tree-parser's `detect_language_by_extension` finds for a
/// path (from its extension, compared without case), if any.
pub uninterp spec fn language_of_path(path: Seq<char>) -> Option<SourceLanguage>;

/// Calls `tree_parser::detect_language_by_extension`, which depends on the
/// path alone; its result, variant for variant, is named `language_of_path`.
#[verifier::external_body]
pub fn detect_language(path: &str) -> (r: Option<SourceLanguage>)
    ensures
        r == language_of_path(path@),
{
    Some(match tree_parser::detect_language_by_extension(path)? {
        Python => S::Python, Rust => S::Rust, JavaScript => S::JavaScript, TypeScript => S::TypeScript,
        Java => S::Java, C => S::C, Cpp => S::Cpp, Go => S::Go, CSharp => S::CSharp, Php => S::Php,
        Ruby => S::Ruby, Swift => S::Swift, Kotlin => S::Kotlin, Scala => S::Scala, Haskell => S::Haskell,
        Lua => S::Lua, Perl => S::Perl, R => S::R, Bash => S::Bash, PowerShell => S::PowerShell,
        Html => S::Html, Css => S::Css, Sql => S::Sql, Json => S::Json, Yaml => S::Yaml, Toml => S::Toml,
        Xml => S::Xml,
    })
}

/// The language a file is outlined in: the one detected from its path, or
/// Rust when none is.
pub fn outline_language(path: &str) -> (lang: SourceLanguage)
    ensures
        lang == (match language_of_path(path@) {
            Some(l) => l,
            None => SourceLanguage::Rust,
        }),
{
    match detect_language(path) {
        Some(l) => l,
        None => SourceLanguage::Rust,
    }
}

} // verus!
