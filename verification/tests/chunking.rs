use spelunk::chunk::MAX_CHUNK_LINES;
use spelunk::language::typescript;
use spelunk::{Chunk, ChunkKind, chunk_source};

fn chunk_ts(source: &str) -> Vec<Chunk> {
    chunk_source(&spelunk::language::typescript(), "src/test.ts", source).unwrap()
}

fn find<'c>(chunks: &'c [Chunk], name: &str) -> &'c Chunk {
    chunks
        .iter()
        .find(|c| c.name.as_deref() == Some(name))
        .unwrap_or_else(|| panic!("no chunk named {name} in {chunks:#?}"))
}

#[test]
fn functions_and_imports() {
    let source = "\
import { x } from \"./x\";

function alpha(a: number): number {
  return a + 1;
}

export function beta(): void {
  alpha(2);
}
";
    let chunks = chunk_ts(source);

    let alpha = find(&chunks, "alpha");
    assert_eq!(alpha.kind, ChunkKind::Function);
    assert_eq!((alpha.start_line, alpha.end_line), (3, 5));
    assert!(alpha.text.starts_with("function alpha"));

    // Export wrapper is included in the chunk span and text.
    let beta = find(&chunks, "beta");
    assert_eq!((beta.start_line, beta.end_line), (7, 9));
    assert!(beta.text.starts_with("export function beta"));

    // The import line becomes a module chunk, blank lines trimmed.
    let module: Vec<_> = chunks
        .iter()
        .filter(|c| c.kind == ChunkKind::Module)
        .collect();
    assert_eq!(module.len(), 1);
    assert_eq!((module[0].start_line, module[0].end_line), (1, 1));
    assert_eq!(module[0].name, None);
}

#[test]
fn const_arrow_functions_and_type_definitions() {
    let source = "\
export const clamp = (n: number, lo: number, hi: number) =>
  Math.min(hi, Math.max(lo, n));

export interface Pair {
  left: number;
  right: number;
}

export type Result = Pair | null;

enum Direction {
  Up,
  Down,
}
";
    let chunks = chunk_ts(source);
    assert_eq!(find(&chunks, "clamp").kind, ChunkKind::Function);
    assert_eq!(find(&chunks, "Pair").kind, ChunkKind::Interface);
    assert_eq!(find(&chunks, "Result").kind, ChunkKind::TypeAlias);
    assert_eq!(find(&chunks, "Direction").kind, ChunkKind::Enum);
    assert!(
        find(&chunks, "clamp")
            .text
            .starts_with("export const clamp")
    );
}

#[test]
fn small_class_is_one_chunk() {
    let source = "\
class Greeter {
  private name = \"world\";

  greet(): string {
    return `hello ${this.name}`;
  }
}
";
    let chunks = chunk_ts(source);
    assert_eq!(chunks.len(), 1);
    let class = find(&chunks, "Greeter");
    assert_eq!(class.kind, ChunkKind::Class);
    assert_eq!((class.start_line, class.end_line), (1, 7));
    // No separate chunk for the method of a small class.
    assert!(
        !chunks
            .iter()
            .any(|c| c.name.as_deref() == Some("Greeter.greet"))
    );
}

#[test]
fn large_class_splits_into_header_and_methods() {
    // Build a class guaranteed to exceed MAX_CHUNK_LINES.
    let body_lines = MAX_CHUNK_LINES; // per-method padding
    let mut source = String::from("export class Big {\n  private count = 0;\n\n");
    for name in ["first", "second"] {
        source.push_str(&format!("  {name}(): void {{\n"));
        for i in 0..body_lines / 2 {
            source.push_str(&format!("    this.count += {i};\n"));
        }
        source.push_str("  }\n\n");
    }
    source.push_str("}\n");

    let chunks = chunk_ts(&source);

    let header = find(&chunks, "Big");
    assert_eq!(header.kind, ChunkKind::Class);
    assert_eq!(header.start_line, 1);
    assert!(header.text.starts_with("export class Big"));
    assert!(header.text.contains("private count"));
    assert!(!header.text.contains("this.count +="));

    let first = find(&chunks, "Big.first");
    assert_eq!(first.kind, ChunkKind::Method);
    assert!(first.text.trim_start().starts_with("first(): void"));
    find(&chunks, "Big.second");
}

#[test]
fn nested_functions_stay_inside_their_parent() {
    let source = "\
function outer(): number {
  const inner = () => 41;
  function innermost(): number {
    return inner() + 1;
  }
  return innermost();
}
";
    let chunks = chunk_ts(source);
    assert_eq!(chunks.len(), 1);
    let outer = find(&chunks, "outer");
    assert_eq!((outer.start_line, outer.end_line), (1, 7));
    assert!(outer.text.contains("innermost"));
}

#[test]
fn oversized_function_splits_into_truthful_windows() {
    let mut source = String::from("function huge(): void {\n");
    for i in 0..(MAX_CHUNK_LINES * 2) {
        source.push_str(&format!("  console.log({i});\n"));
    }
    source.push_str("}\n");
    let total_lines = MAX_CHUNK_LINES * 2 + 2;

    let chunks = chunk_ts(&source);
    let parts: Vec<_> = chunks
        .iter()
        .filter(|c| c.name.as_deref() == Some("huge"))
        .collect();
    assert_eq!(parts.len(), 3); // 302 lines -> 150 + 150 + 2

    assert_eq!(parts[0].start_line, 1);
    for pair in parts.windows(2) {
        assert_eq!(pair[1].start_line, pair[0].end_line + 1);
    }
    assert_eq!(parts.last().unwrap().end_line, total_lines);

    // Reassembling the parts gives back the original source.
    let rebuilt: String = parts.iter().map(|c| c.text.as_str()).collect();
    assert_eq!(rebuilt, source);
}

#[test]
fn leading_doc_comments_attach_to_their_definition() {
    let source = "\
// detached file-header comment

/**
 * Checks the request budget.
 */
export function check(): boolean {
  return true;
}
";
    let chunks = chunk_ts(source);
    let check = find(&chunks, "check");
    assert_eq!((check.start_line, check.end_line), (3, 8));
    assert!(check.text.starts_with("/**"));

    // The header comment is separated by a blank line: stays a module chunk.
    let modules: Vec<_> = chunks
        .iter()
        .filter(|c| c.kind == ChunkKind::Module)
        .collect();
    assert_eq!(modules.len(), 1);
    assert_eq!((modules[0].start_line, modules[0].end_line), (1, 1));
}

#[test]
fn broken_syntax_still_produces_chunks() {
    let source = "\
function ok(): number {
  return 1;
}

this is (not valid typescript at all
";
    let chunks = chunk_ts(source);
    find(&chunks, "ok");
    // The broken tail lands in a module chunk instead of being dropped.
    assert!(
        chunks
            .iter()
            .any(|c| c.kind == ChunkKind::Module && c.text.contains("not valid"))
    );
}

#[test]
fn blank_and_empty_files_produce_no_chunks() {
    assert!(chunk_ts("").is_empty());
    assert!(chunk_ts("\n\n  \n").is_empty());
}

#[test]
fn embedding_text_carries_path_and_name() {
    let chunks = chunk_ts("export function login(): void {}\n");
    let login = find(&chunks, "login");
    let text = login.embedding_text();
    assert!(text.starts_with("src/test.ts login\n"));
    assert!(text.contains("export function login"));
    assert_eq!(login.signature(), "export function login(): void {}");
}

#[test]
fn tsx_config_chunks_tsx() {
    let chunks = chunk_source(
        &spelunk::language::tsx(),
        "src/index.tsx",
        "export function StatusBadge(): JSX.Element {\n  return <span>ok</span>;\n}\n",
    )
    .unwrap();
    let badge = find(&chunks, "StatusBadge");
    assert_eq!(badge.language, spelunk::Language::Tsx);
    assert_eq!(badge.kind, ChunkKind::Function);
    let _ = typescript::CHUNK_QUERY;
}

#[test]
fn a_query_that_does_not_compile_fails_only_non_empty_files() {
    let config = spelunk::LanguageConfig::new(spelunk::Language::TypeScript, &["ts"], "(not_a_node) @definition");
    match chunk_source(&config, "src/x.ts", "const a = 1;\n") {
        Err(e) => assert_eq!(e.message(), "invalid chunk query for typescript"),
        Ok(_) => panic!("the query must not compile"),
    }
    assert!(chunk_source(&config, "src/x.ts", "").unwrap().is_empty());
}

#[test]
fn a_query_without_name_captures_gives_module_chunks_only() {
    let config = spelunk::LanguageConfig::new(
        spelunk::Language::TypeScript,
        &["ts"],
        "(function_declaration) @definition",
    );
    let chunks = chunk_source(&config, "src/x.ts", "function f() {}\n").unwrap();
    assert_eq!(chunks.len(), 1);
    assert_eq!(chunks[0].kind, ChunkKind::Module);
    assert_eq!(chunks[0].name, None);
}

#[test]
fn a_parser_is_reused_across_languages() {
    let mut parser = spelunk::ChunkParser::new();
    let tsx = spelunk::chunk_source_with(&mut parser, &spelunk::language::tsx(), "a.tsx", "const A = () => <div/>;\n").unwrap();
    let ts = spelunk::chunk_source_with(&mut parser, &spelunk::language::typescript(), "a.ts", "function f() {}\n").unwrap();
    assert_eq!(tsx[0].name.as_deref(), Some("A"));
    let fresh = chunk_source(&spelunk::language::typescript(), "a.ts", "function f() {}\n").unwrap();
    assert_eq!(format!("{ts:?}"), format!("{fresh:?}"));
}
