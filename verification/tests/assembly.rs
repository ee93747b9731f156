use spelunk::assemble::{Def, assemble_chunks, push_module_gap, sort_chunks};
use spelunk::chunk::{ChunkKind, MAX_CHUNK_LINES, push_split};
use spelunk::lines::LineIndex;
use spelunk::syntax::{attaches_as_doc_comment, lines_of_positions, order_defs};
use spelunk::{Chunk, Language};

fn def(start_byte: usize, end_byte: usize, start_line: usize, end_line: usize, kind: ChunkKind, name: &str) -> Def {
    Def { start_byte, end_byte, start_line, end_line, kind, name: name.to_string() }
}

fn spans(chunks: &[Chunk]) -> Vec<(usize, usize, ChunkKind, Option<String>)> {
    chunks.iter().map(|c| (c.start_line, c.end_line, c.kind, c.name.clone())).collect()
}

#[test]
fn windows_of_a_long_span() {
    let source: String = (1..=320).map(|i| format!("line {i}\n")).collect();
    let idx = LineIndex::new(&source);
    let mut chunks = Vec::new();
    push_split(&mut chunks, "a.ts", Language::TypeScript, &source, &idx, ChunkKind::Function, Some("f".to_string()), 5, 320);
    let got: Vec<(usize, usize)> = chunks.iter().map(|c| (c.start_line, c.end_line)).collect();
    assert_eq!(got, vec![(5, 5 + MAX_CHUNK_LINES - 1), (155, 304), (305, 320)]);
    let rebuilt: String = chunks.iter().map(|c| c.text.as_str()).collect();
    assert_eq!(rebuilt, idx.slice(&source, 5, 320));
    assert!(chunks.iter().all(|c| c.name.as_deref() == Some("f") && c.path == "a.ts"));
    // An empty span gives nothing.
    let mut none = Vec::new();
    push_split(&mut none, "a.ts", Language::TypeScript, &source, &idx, ChunkKind::Function, None, 9, 8);
    assert!(none.is_empty());
    // Exactly MAX_CHUNK_LINES lines is one window.
    let mut one = Vec::new();
    push_split(&mut one, "a.ts", Language::TypeScript, &source, &idx, ChunkKind::Module, None, 1, MAX_CHUNK_LINES);
    assert_eq!(one.len(), 1);
}

#[test]
fn module_gap_is_trimmed_of_blank_edges() {
    let source = "\n  \nimport a;\n\nconst b = 1;\n \n";
    let idx = LineIndex::new(source);
    let mut chunks = Vec::new();
    push_module_gap(&mut chunks, "m.ts", Language::TypeScript, source, &idx, 1, 6);
    assert_eq!(spans(&chunks), vec![(3, 5, ChunkKind::Module, None)]);
    assert_eq!(chunks[0].text, "import a;\n\nconst b = 1;\n");
    let mut blank = Vec::new();
    push_module_gap(&mut blank, "m.ts", Language::TypeScript, source, &idx, 1, 2);
    assert!(blank.is_empty());
}

#[test]
fn assembly_nests_splits_and_fills_gaps() {
    // 1: import, 2: blank, 3..=5: function with a closure inside,
    // 6: blank, 7..=8: top-level code.
    let source = "import x;\n\nfunction f() {\n  const g = () => 1;\n}\n\nlet y = 2;\ny++;\n";
    let idx = LineIndex::new(source);
    let defs = vec![
        def(11, 50, 3, 5, ChunkKind::Function, "f"),
        def(28, 45, 4, 4, ChunkKind::Function, "g"),
    ];
    let chunks = assemble_chunks("s.ts", Language::TypeScript, source, &idx, defs);
    assert_eq!(
        spans(&chunks),
        vec![
            (1, 1, ChunkKind::Module, None),
            (3, 5, ChunkKind::Function, Some("f".to_string())),
            (7, 8, ChunkKind::Module, None),
        ]
    );
    assert_eq!(chunks[1].text, "function f() {\n  const g = () => 1;\n}\n");
}

#[test]
fn assembly_splits_a_large_class() {
    let mut source = String::from("class C {\n  x = 1;\n");
    for i in 0..160 {
        source.push_str(&format!("  // {i}\n"));
    }
    source.push_str("  m() {}\n}\n");
    let idx = LineIndex::new(&source);
    let total = idx.count;
    assert_eq!(total, 164);
    let defs = vec![
        def(0, 10_000, 1, 164, ChunkKind::Class, "C"),
        def(5_000, 5_007, 163, 163, ChunkKind::Method, "m"),
        def(5_001, 5_002, 163, 163, ChunkKind::Function, "inner"),
    ];
    let chunks = assemble_chunks("c.ts", Language::TypeScript, &source, &idx, defs);
    assert_eq!(
        spans(&chunks),
        vec![
            (1, 150, ChunkKind::Class, Some("C".to_string())),
            (151, 162, ChunkKind::Class, Some("C".to_string())),
            (163, 163, ChunkKind::Method, Some("C.m".to_string())),
        ]
    );
}

#[test]
fn small_class_keeps_its_methods_inside() {
    let source = "class A {\n  m() {}\n}\n";
    let idx = LineIndex::new(source);
    let defs = vec![
        def(0, 20, 1, 3, ChunkKind::Class, "A"),
        def(12, 18, 2, 2, ChunkKind::Method, "m"),
    ];
    let chunks = assemble_chunks("a.ts", Language::TypeScript, source, &idx, defs);
    assert_eq!(spans(&chunks), vec![(1, 3, ChunkKind::Class, Some("A".to_string()))]);
}

#[test]
fn blank_file_without_definitions_has_no_chunks() {
    let source = "\n \n\t\n";
    let idx = LineIndex::new(source);
    assert!(assemble_chunks("b.ts", Language::TypeScript, source, &idx, Vec::new()).is_empty());
}

#[test]
fn chunks_are_sorted_stably_by_span() {
    let mk = |s: usize, e: usize, n: &str| Chunk {
        path: String::new(),
        language: Language::TypeScript,
        kind: ChunkKind::Function,
        name: Some(n.to_string()),
        start_line: s,
        end_line: e,
        text: String::new(),
    };
    let sorted = sort_chunks(vec![mk(5, 6, "a"), mk(1, 9, "b"), mk(1, 2, "c"), mk(5, 6, "d"), mk(1, 2, "e")]);
    let names: Vec<&str> = sorted.iter().map(|c| c.name.as_deref().unwrap()).collect();
    assert_eq!(names, vec!["c", "e", "b", "a", "d"]);
}

#[test]
fn definitions_are_ordered_outer_first_and_deduplicated() {
    let defs = vec![
        def(10, 20, 2, 2, ChunkKind::Function, "b1"),
        def(0, 50, 1, 5, ChunkKind::Class, "outer"),
        def(10, 20, 2, 2, ChunkKind::Function, "b2"),
        def(10, 30, 2, 3, ChunkKind::Function, "wide"),
        def(5, 8, 1, 1, ChunkKind::Method, "m"),
    ];
    let ordered = order_defs(defs);
    let names: Vec<&str> = ordered.iter().map(|d| d.name.as_str()).collect();
    assert_eq!(names, vec!["outer", "m", "wide", "b1"]);
}

#[test]
fn node_positions_to_lines() {
    // A node ending at column 0 stops before that line.
    assert_eq!(lines_of_positions(0, 2, 0), (1, 2));
    assert_eq!(lines_of_positions(0, 0, 0), (1, 1));
    assert_eq!(lines_of_positions(3, 5, 4), (4, 6));
}

#[test]
fn doc_comments_attach_only_right_above() {
    assert!(attaches_as_doc_comment("comment", 3, 4, 5));
    assert!(attaches_as_doc_comment("comment", 4, 4, 5));
    // A blank line between them detaches the comment.
    assert!(!attaches_as_doc_comment("comment", 2, 3, 5));
    assert!(!attaches_as_doc_comment("lexical_declaration", 4, 4, 5));
    assert!(!attaches_as_doc_comment("comment", 5, 5, 5));
}
