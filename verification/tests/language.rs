//! The language table: extensions, names, and the conversions between them.

use std::collections::HashSet;
use std::str::FromStr;
use yadr::Language;

#[test]
fn every_language_is_reachable_from_its_own_extension() {
    for language in Language::ALL {
        assert_eq!(
            Language::from_extension(language.extension()),
            Some(*language),
            "{language:?} reports the extension {:?}, which maps to something else",
            language.extension(),
        );
    }
}

#[test]
fn every_language_is_reachable_from_its_own_name() {
    for language in Language::ALL {
        assert_eq!(
            Language::from_str(language.name()).as_ref(),
            Ok(language),
            "{language:?} reports the name {:?}, which does not parse back",
            language.name(),
        );
    }
}

#[test]
fn extensions_and_names_are_unique() {
    let mut extensions = HashSet::new();
    let mut names = HashSet::new();
    for language in Language::ALL {
        assert!(
            extensions.insert(language.extension()),
            "more than one language claims the extension {:?}",
            language.extension(),
        );
        assert!(
            names.insert(language.name()),
            "more than one language claims the name {:?}",
            language.name(),
        );
    }
}

#[test]
fn all_lists_every_supported_language() {
    for language in [
        Language::Rust,
        Language::Python,
        Language::Nix,
        Language::TypeScript,
    ] {
        assert!(
            Language::ALL.contains(&language),
            "{language:?} is missing from Language::ALL",
        );
    }
}

#[test]
fn typescript_is_selected_for_ts_files() {
    assert_eq!(
        Language::from_extension("ts"),
        Some(Language::TypeScript),
        "a .ts file has to reach the TypeScript parser",
    );
}

#[test]
fn unsupported_extensions_are_not_languages() {
    for extension in [".ts", "tsx", "mts", "cts", "js", "md", ""] {
        assert_eq!(
            Language::from_extension(extension),
            None,
            "{extension:?} is not an extension this version parses",
        );
    }
}

#[test]
fn language_conversions_round_trip() {
    for &language in Language::ALL {
        assert_eq!(
            Language::from_extension(language.extension()),
            Some(language),
            "{language:?} is not reachable from its own extension"
        );
        assert_eq!(
            Language::from_str(&language.to_string()).as_ref(),
            Ok(&language),
            "{language:?} is not reachable from its own name"
        );
    }
}

#[test]
fn unknown_language_names_the_alternatives() {
    let e = Language::from_str("cobol").expect_err("cobol is not supported");
    assert_eq!(e.unrecognized(), "cobol");
    let msg = e.to_string();
    for language in Language::ALL {
        assert!(msg.contains(language.name()), "{msg:?} omits {language:?}");
    }
}

#[test]
fn unknown_language_message_lists_every_name() {
    let e = Language::from_str("cobol").expect_err("cobol is not supported");
    assert_eq!(
        e.to_string(),
        "unknown language 'cobol', expected one of 'rust', 'python', 'nix', 'typescript'"
    );
}

#[test]
fn names_match_ignoring_ascii_case() {
    assert_eq!(Language::from_str("RuSt"), Ok(Language::Rust));
    assert_eq!(Language::from_str("PYTHON"), Ok(Language::Python));
    assert!(Language::from_str("rust ").is_err());
}

#[test]
fn canonical_extensions_and_names() {
    assert_eq!(Language::Rust.extension(), "rs");
    assert_eq!(Language::Python.extension(), "py");
    assert_eq!(Language::Nix.extension(), "nix");
    assert_eq!(Language::TypeScript.extension(), "ts");
    assert_eq!(Language::Rust.name(), "rust");
    assert_eq!(Language::TypeScript.to_string(), "typescript");
    assert_eq!(Language::from_extension("rs"), Some(Language::Rust));
    assert_eq!(Language::from_extension("md"), None);
}
