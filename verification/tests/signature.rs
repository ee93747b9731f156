use spelunk::chunk::ChunkKind;
use spelunk::language::typescript::kind_for_node;
use spelunk::{Chunk, Language};

fn chunk(name: Option<&str>, text: &str) -> Chunk {
    Chunk {
        path: "src/a.ts".to_string(),
        language: Language::TypeScript,
        kind: ChunkKind::Function,
        name: name.map(|n| n.to_string()),
        start_line: 1,
        end_line: 1,
        text: text.to_string(),
    }
}

#[test]
fn signature_is_the_first_non_empty_line_trimmed() {
    assert_eq!(chunk(None, "\n  \n  foo(a) {  \r\n  bar\n").signature(), "foo(a) {");
    assert_eq!(chunk(None, "x").signature(), "x");
    assert_eq!(chunk(None, " \n\t\n").signature(), "");
    assert_eq!(chunk(None, "").signature(), "");
    assert_eq!(chunk(None, "\u{3000}日本 語\u{a0}\nz").signature(), "日本 語");
}

#[test]
fn embedding_text_without_a_name() {
    assert_eq!(chunk(None, "import x;\n").embedding_text(), "src/a.ts\nimport x;\n");
    assert_eq!(chunk(Some("A.b"), "b() {}\n").embedding_text(), "src/a.ts A.b\nb() {}\n");
}

#[test]
fn kinds_of_typescript_nodes() {
    assert_eq!(kind_for_node("class_declaration"), ChunkKind::Class);
    assert_eq!(kind_for_node("abstract_class_declaration"), ChunkKind::Class);
    assert_eq!(kind_for_node("interface_declaration"), ChunkKind::Interface);
    assert_eq!(kind_for_node("enum_declaration"), ChunkKind::Enum);
    assert_eq!(kind_for_node("type_alias_declaration"), ChunkKind::TypeAlias);
    assert_eq!(kind_for_node("method_definition"), ChunkKind::Method);
    assert_eq!(kind_for_node("public_field_definition"), ChunkKind::Method);
    assert_eq!(kind_for_node("lexical_declaration"), ChunkKind::Function);
    assert_eq!(kind_for_node("function_declaration"), ChunkKind::Function);
}
