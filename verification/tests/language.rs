use spelunk::language::{config_for_path, registry};
use spelunk::Language;

#[test]
fn every_registered_query_compiles() {
    for config in registry() {
        let query = config.query().expect("chunk query must compile");
        // The chunker relies on these two capture names existing.
        assert!(query.compiled().capture_index_for_name("definition").is_some());
        assert!(query.compiled().capture_index_for_name("name").is_some());
    }
}

#[test]
fn extension_lookup() {
    assert_eq!(
        config_for_path("src/a.ts").map(|c| c.language),
        Some(Language::TypeScript)
    );
    assert_eq!(
        config_for_path("src/A.TSX").map(|c| c.language),
        Some(Language::Tsx)
    );
    assert!(config_for_path("src/a.rs").is_none());
    assert!(config_for_path("Makefile").is_none());
}

#[test]
fn extension_lookup_edges() {
    assert_eq!(config_for_path("lib/x.mts").map(|c| c.language), Some(Language::TypeScript));
    assert_eq!(config_for_path("lib/x.CTS").map(|c| c.language), Some(Language::TypeScript));
    // A leading dot starts a hidden name, not an extension.
    assert!(config_for_path("dir/.ts").is_none());
    // The extension is that of the file name, not of a directory.
    assert!(config_for_path("a.ts/readme").is_none());
    assert!(config_for_path("").is_none());
}

#[test]
fn extension_ignores_trailing_separators() {
    // As `Path::extension`: trailing `/` and `/.` components are not names.
    assert_eq!(config_for_path("src/a.ts/").map(|c| c.language), Some(Language::TypeScript));
    assert_eq!(config_for_path("src/a.ts/.").map(|c| c.language), Some(Language::TypeScript));
    assert_eq!(config_for_path("src/a.tsx//./").map(|c| c.language), Some(Language::Tsx));
    assert!(config_for_path("src/a.ts/..").is_none());
    assert!(config_for_path("..").is_none());
    assert!(config_for_path("/.").is_none());
}

#[test]
fn language_names() {
    assert_eq!(Language::TypeScript.name(), "typescript");
    assert_eq!(Language::Tsx.name(), "tsx");
}
