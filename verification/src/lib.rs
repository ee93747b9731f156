//! Definition-level chunking of source files, the core of a code search
//! engine: the files of a repository that are worth indexing are selected,
//! and each is split into chunks (functions, methods, classes, ...) plus
//! module chunks for the code between definitions.

pub mod assemble;
pub mod chunk;
pub mod error;
pub mod language;
pub mod lines;
pub mod sitter;
pub mod syntax;
pub mod text;
pub mod walk;

pub use chunk::{Chunk, ChunkKind, ChunkOutcome, SkippedFile, chunk_file, chunk_source, chunk_source_with, gather_outcome};
pub use error::{Error, Result};
pub use language::{Language, LanguageConfig, config_for_path};
pub use sitter::ChunkParser;
pub use walk::{SourceFile, WalkEntry, select_source_files};
