//! TypeScript / TSX language config.
//!
//! The chunk query below defines what counts as a "definition" in
//! TypeScript. Each pattern captures the whole definition node as
//! `@definition` and its identifier as `@name`. The chunker handles export
//! wrappers, nesting, and size limits generically.
use vstd::prelude::*;
use crate::chunk::ChunkKind;
use crate::text::str_eq;

verus! {

/// Shared by the TS and TSX grammars: TSX is a superset with the same node
/// kinds for everything captured here.
pub const CHUNK_QUERY: &'static str = r#"
(function_declaration name: (_) @name) @definition
(generator_function_declaration name: (_) @name) @definition
(class_declaration name: (_) @name) @definition
(abstract_class_declaration name: (_) @name) @definition
(interface_declaration name: (_) @name) @definition
(enum_declaration name: (_) @name) @definition
(type_alias_declaration name: (_) @name) @definition
(method_definition name: (_) @name) @definition

; `const handler = () => { ... }` and `let f = function () { ... }`
(lexical_declaration
  (variable_declarator
    name: (_) @name
    value: [(arrow_function) (function_expression)])) @definition
(variable_declaration
  (variable_declarator
    name: (_) @name
    value: [(arrow_function) (function_expression)])) @definition

; class property methods: `class C { handle = () => { ... } }`
(public_field_definition
  name: (_) @name
  value: [(arrow_function) (function_expression)]) @definition
"#;

/// The chunk kind of a captured TypeScript node kind.
pub open spec fn ts_kind(node_kind: Seq<char>) -> ChunkKind {
    if node_kind == "class_declaration"@ || node_kind == "abstract_class_declaration"@ {
        ChunkKind::Class
    } else if node_kind == "interface_declaration"@ {
        ChunkKind::Interface
    } else if node_kind == "enum_declaration"@ {
        ChunkKind::Enum
    } else if node_kind == "type_alias_declaration"@ {
        ChunkKind::TypeAlias
    } else if node_kind == "method_definition"@ || node_kind == "public_field_definition"@ {
        ChunkKind::Method
    } else {
        // function_declaration, generator_function_declaration,
        // lexical_declaration, variable_declaration
        ChunkKind::Function
    }
}

pub fn kind_for_node(node_kind: &str) -> (res: ChunkKind)
    ensures
        res == ts_kind(node_kind@),
{
    if str_eq(node_kind, "class_declaration") || str_eq(node_kind, "abstract_class_declaration") {
        ChunkKind::Class
    } else if str_eq(node_kind, "interface_declaration") {
        ChunkKind::Interface
    } else if str_eq(node_kind, "enum_declaration") {
        ChunkKind::Enum
    } else if str_eq(node_kind, "type_alias_declaration") {
        ChunkKind::TypeAlias
    } else if str_eq(node_kind, "method_definition") || str_eq(node_kind, "public_field_definition") {
        ChunkKind::Method
    } else {
        ChunkKind::Function
    }
}

} // verus!
