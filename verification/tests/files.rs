use std::path::PathBuf;

use spelunk::chunk::ChunkKind;
use spelunk::ChunkParser;
use spelunk::walk::MAX_FILE_BYTES;
use spelunk::{Chunk, Error, Language, SkippedFile, WalkEntry, chunk_file, gather_outcome, select_source_files};

fn entry(parts: &[&str], is_file: bool, size: Option<u64>) -> WalkEntry {
    let rel = parts.join("/");
    WalkEntry {
        components: parts.iter().map(|p| p.to_string()).collect(),
        path: format!("/repo/{rel}"),
        abs_path: PathBuf::from(format!("/repo/{rel}")),
        is_file,
        size,
    }
}

#[test]
fn selection_keeps_small_source_files_sorted() {
    let files = select_source_files(vec![
        entry(&["b", "z.ts"], true, Some(10)),
        entry(&["a.ts"], true, Some(10)),
        entry(&["b", "a.tsx"], true, Some(10)),
        entry(&["b"], false, None),
        entry(&["notes.txt"], true, Some(10)),
        entry(&["big.ts"], true, Some(MAX_FILE_BYTES + 1)),
        entry(&["edge.ts"], true, Some(MAX_FILE_BYTES)),
        entry(&["gone.ts"], true, None),
    ]);
    let paths: Vec<&str> = files.iter().map(|f| f.rel_path.as_str()).collect();
    assert_eq!(paths, vec!["a.ts", "b/a.tsx", "b/z.ts", "edge.ts"]);
    assert_eq!(files[1].config.language, Language::Tsx);
    assert_eq!(files[0].abs_path, PathBuf::from("/repo/a.ts"));
}

#[test]
fn chunking_a_file_reports_why_it_was_skipped() {
    let file = select_source_files(vec![entry(&["src", "x.ts"], true, Some(1))]).pop().unwrap();
    let mut parser = ChunkParser::new();

    let read_failed = chunk_file(&mut parser, &file, Err("permission denied".to_string())).unwrap_err();
    assert_eq!(read_failed.rel_path, "src/x.ts");
    assert_eq!(read_failed.reason, "read failed: permission denied");

    let not_utf8 = chunk_file(&mut parser, &file, Ok(vec![b'a', 0xff, b'\n'])).unwrap_err();
    assert_eq!(not_utf8.reason, "not valid UTF-8");

    let chunks = chunk_file(&mut parser, &file, Ok(b"function f() {}\n".to_vec())).unwrap();
    assert_eq!(chunks.len(), 1);
    assert_eq!(chunks[0].name.as_deref(), Some("f"));
    assert_eq!(chunks[0].path, "src/x.ts");
}

#[test]
fn outcome_keeps_chunks_and_skips_in_order() {
    let mk = |n: &str| Chunk {
        path: n.to_string(),
        language: Language::TypeScript,
        kind: ChunkKind::Module,
        name: None,
        start_line: 1,
        end_line: 1,
        text: String::new(),
    };
    let skip = |p: &str| SkippedFile { rel_path: p.to_string(), reason: "r".to_string() };
    let outcome = gather_outcome(vec![
        Ok(vec![mk("a"), mk("b")]),
        Err(skip("x")),
        Ok(vec![]),
        Ok(vec![mk("c")]),
        Err(skip("y")),
    ]);
    let chunks: Vec<&str> = outcome.chunks.iter().map(|c| c.path.as_str()).collect();
    assert_eq!(chunks, vec!["a", "b", "c"]);
    let skipped: Vec<&str> = outcome.skipped.iter().map(|s| s.rel_path.as_str()).collect();
    assert_eq!(skipped, vec!["x", "y"]);
}

#[test]
fn error_messages() {
    let lang: tree_sitter::Language = tree_sitter_typescript::LANGUAGE_TYPESCRIPT.into();
    let source = tree_sitter::Query::new(&lang, "(not_a_node) @x").unwrap_err();
    let e = Error::Query { language: "typescript", source };
    assert_eq!(e.message(), "invalid chunk query for typescript");

    let e = Error::Io { path: PathBuf::from("src/a.ts"), source: std::io::Error::other("denied") };
    assert_eq!(e.message(), "failed to read src/a.ts");

    let e = Error::Walk(ignore::Error::Io(std::io::Error::other("loop")));
    assert_eq!(e.message(), "error while walking files");
}

#[test]
fn files_are_tallied_per_language_by_name() {
    let files = select_source_files(vec![
        entry(&["a.ts"], true, Some(1)),
        entry(&["b.tsx"], true, Some(1)),
        entry(&["c.mts"], true, Some(1)),
    ]);
    assert_eq!(spelunk::walk::files_per_language(&files), vec![("tsx", 1), ("typescript", 2)]);
    assert!(spelunk::walk::files_per_language(&Vec::new()).is_empty());
}
