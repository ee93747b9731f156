//! Chunks: the retrieval units that a source file is split into, and the
//! rules that cut a line span into chunks.
use vstd::prelude::*;
use vstd::string::StringSliceAdditionalSpecFns;
use vstd::string::StringExecFns;
use crate::text::{is_ws, all_ws, is_whitespace};
use crate::language::Language;
use crate::lines::{LineIndex, span_text, span_bytes, line_count, line_begin, line_end, lemma_span, lemma_span_concat};
use vstd::utf8::{valid_utf8, encode_utf8, decode_utf8};
use crate::assemble::{definition_chunked, Def, DefView, assemble_chunks, assembled, def_views, defs_fit, no_module_defs, chunk_in_file, sorted_by_span, lemma_assembled_chunks};
use crate::error::{Error, Result};
use crate::language::{LanguageConfig, language_name};
use crate::syntax::{captured_defs, collect_definitions, defs_ordered};
use crate::sitter::{ChunkParser, TreeSite, grammar_accepted, parse_text, query_compiles, root_node, set_parser_language};

verus! {

/// Chunks longer than this are split. Roughly sized so a chunk stays useful
/// as a retrieval unit and mostly survives embedding-model truncation.
pub const MAX_CHUNK_LINES: usize = 150;

#[derive(Debug, Clone, Copy, PartialEq, Eq, Structural)]
pub enum ChunkKind {
    Function,
    Method,
    Class,
    Interface,
    Enum,
    TypeAlias,
    /// Top-level code that is not part of any captured definition.
    Module,
}

/// One retrieval unit: a contiguous span of one source file.
#[derive(Debug, Clone)]
pub struct Chunk {
    /// Relative, `/`-separated path of the file this chunk came from.
    pub path: String,
    pub language: Language,
    pub kind: ChunkKind,
    /// Definition name (`login`, `SessionManager.refresh`); `None` for module chunks.
    pub name: Option<String>,
    /// 1-based, inclusive.
    pub start_line: usize,
    /// 1-based, inclusive.
    pub end_line: usize,
    /// Exact source text of the span (whole lines).
    pub text: String,
}

/// What a chunk holds, as mathematical values.
pub struct ChunkView {
    pub path: Seq<char>,
    pub language: Language,
    pub kind: ChunkKind,
    pub name: Option<Seq<char>>,
    pub start_line: int,
    pub end_line: int,
    pub text: Seq<char>,
}

pub open spec fn name_view(name: Option<String>) -> Option<Seq<char>> {
    match name {
        Some(n) => Some(n@),
        None => None,
    }
}

impl View for Chunk {
    type V = ChunkView;

    open spec fn view(&self) -> ChunkView {
        ChunkView {
            path: self.path@,
            language: self.language,
            kind: self.kind,
            name: name_view(self.name),
            start_line: self.start_line as int,
            end_line: self.end_line as int,
            text: self.text@,
        }
    }
}

/// The views of a sequence of chunks.
pub open spec fn chunk_views(v: Seq<Chunk>) -> Seq<ChunkView> {
    v.map_values(|c: Chunk| c@)
}

/// The line windows a span `start..=end` is cut into: consecutive, each at
/// most `MAX_CHUNK_LINES` long, the last one ending at `end`.
pub open spec fn windows(start: int, end: int) -> Seq<(int, int)>
    decreases end - start + 1,
{
    if start > end {
        seq![]
    } else {
        let we = if end - start < MAX_CHUNK_LINES - 1 {
            end
        } else {
            start + MAX_CHUNK_LINES - 1
        };
        seq![(start, we)] + windows(we + 1, end)
    }
}

/// The chunk of the lines `start..=end`.
pub open spec fn chunk_at(
    path: Seq<char>,
    language: Language,
    b: Seq<u8>,
    kind: ChunkKind,
    name: Option<Seq<char>>,
    start: int,
    end: int,
) -> ChunkView {
    ChunkView {
        path,
        language,
        kind,
        name,
        start_line: start,
        end_line: end,
        text: span_text(b, start, end),
    }
}

/// The chunks of the span `start..=end`: one per window, sharing kind and
/// name.
pub open spec fn split_views(
    path: Seq<char>,
    language: Language,
    b: Seq<u8>,
    kind: ChunkKind,
    name: Option<Seq<char>>,
    start: int,
    end: int,
) -> Seq<ChunkView> {
    windows(start, end).map_values(|w: (int, int)| chunk_at(path, language, b, kind, name, w.0, w.1))
}

/// Peel the first window off a span.
pub proof fn lemma_split_step(
    path: Seq<char>,
    language: Language,
    b: Seq<u8>,
    kind: ChunkKind,
    name: Option<Seq<char>>,
    start: int,
    end: int,
)
    requires
        start <= end,
    ensures
        ({
            let we = if end - start < MAX_CHUNK_LINES - 1 {
                end
            } else {
                start + MAX_CHUNK_LINES - 1
            };
            split_views(path, language, b, kind, name, start, end) == seq![
                chunk_at(path, language, b, kind, name, start, we),
            ] + split_views(path, language, b, kind, name, we + 1, end)
        }),
{
    let we = if end - start < MAX_CHUNK_LINES - 1 {
        end
    } else {
        start + MAX_CHUNK_LINES - 1
    };
    let f = |w: (int, int)| chunk_at(path, language, b, kind, name, w.0, w.1);
    assert(windows(start, end) == seq![(start, we)] + windows(we + 1, end));
    assert((seq![(start, we)] + windows(we + 1, end)).map_values(f) =~= seq![f((start, we))]
        + windows(we + 1, end).map_values(f));
}

/// Push the span as one chunk, or several consecutive windows if it exceeds
/// `MAX_CHUNK_LINES`. Parts share kind and name; their line spans stay
/// truthful.
pub fn push_split(
    chunks: &mut Vec<Chunk>,
    rel_path: &str,
    language: Language,
    source: &str,
    lines: &LineIndex,
    kind: ChunkKind,
    name: Option<String>,
    start_line: usize,
    end_line: usize,
)
    requires
        lines.indexes(source.spec_bytes()),
        1 <= start_line,
        end_line <= line_count(source.spec_bytes()),
    ensures
        chunk_views(final(chunks)@) == chunk_views(old(chunks)@) + split_views(
            rel_path@,
            language,
            source.spec_bytes(),
            kind,
            name_view(name),
            start_line as int,
            end_line as int,
        ),
{
    let ghost b = source.spec_bytes();
    let ghost nv = name_view(name);
    let ghost target = chunk_views(old(chunks)@) + split_views(
        rel_path@,
        language,
        b,
        kind,
        nv,
        start_line as int,
        end_line as int,
    );
    if start_line > end_line {
        assert(chunk_views(chunks@) =~= target);
        return ;
    }
    let mut window_start = start_line;
    loop
        invariant_except_break
            chunk_views(chunks@) + split_views(
                rel_path@,
                language,
                b,
                kind,
                nv,
                window_start as int,
                end_line as int,
            ) == target,
        invariant
            lines.indexes(b),
            b == source.spec_bytes(),
            nv == name_view(name),
            1 <= start_line <= window_start <= end_line <= line_count(b),
        ensures
            chunk_views(chunks@) == target,
        decreases end_line - window_start,
    {
        let window_end = if end_line - window_start < MAX_CHUNK_LINES - 1 {
            end_line
        } else {
            window_start + (MAX_CHUNK_LINES - 1)
        };
        proof {
            lemma_split_step(rel_path@, language, b, kind, nv, window_start as int, end_line as int);
        }
        let part_name = match &name {
            Some(n) => Some(n.clone()),
            None => None,
        };
        let text = lines.slice(source, window_start, window_end).to_owned();
        let ghost before = chunks@;
        chunks.push(
            Chunk {
                path: rel_path.to_owned(),
                language,
                kind,
                name: part_name,
                start_line: window_start,
                end_line: window_end,
                text,
            },
        );
        assert(chunk_views(chunks@) =~= chunk_views(before) + seq![
            chunk_at(rel_path@, language, b, kind, nv, window_start as int, window_end as int),
        ]);
        if window_end == end_line {
            assert(split_views(rel_path@, language, b, kind, nv, window_end + 1, end_line as int)
                =~= Seq::<ChunkView>::empty());
            assert(chunk_views(chunks@) =~= target);
            break;
        }
        window_start = window_end + 1;
    }
}

/// Whether every definition spans existing lines, first no later than last.
fn defs_fit_lines(defs: &Vec<Def>, count: usize) -> (res: bool)
    ensures
        res == defs_fit(def_views(defs@), count as int),
{
    let mut i: usize = 0;
    while i < defs.len()
        invariant
            i <= defs@.len(),
            forall|k: int| 0 <= k < i ==> 1 <= (#[trigger] defs@[k]).start_line <= defs@[k].end_line <= count,
        decreases defs@.len() - i,
    {
        if !(1 <= defs[i].start_line && defs[i].start_line <= defs[i].end_line && defs[i].end_line <= count) {
            assert(def_views(defs@)[i as int] == defs@[i as int]@);
            return false;
        }
        i = i + 1;
    }
    assert forall|k: int| 0 <= k < def_views(defs@).len() implies 1 <= (#[trigger] def_views(defs@)[k]).start_line
        <= def_views(defs@)[k].end_line <= count by {
        assert(def_views(defs@)[k] == defs@[k]@);
    }
    true
}

/// `chunks` are assembled from some definitions that fit the file with
/// bytes `b`, ordered outer before inner.
pub open spec fn chunked(config: LanguageConfig, rel_path: Seq<char>, b: Seq<u8>, chunks: Seq<Chunk>) -> bool {
    exists|defs: Seq<DefView>|
        defs_ordered(defs) && defs_fit(defs, line_count(b)) && no_module_defs(defs) && chunk_views(
            chunks,
        ) == #[trigger] assembled(rel_path, config.language, b, defs)
}

/// Every chunk is a chunk of the file (existing lines, at most
/// `MAX_CHUNK_LINES` of them, text exactly those lines, the file's path and
/// language), and the chunks are ordered by span.
pub open spec fn truthful_chunks(config: LanguageConfig, rel_path: Seq<char>, b: Seq<u8>, chunks: Seq<Chunk>) -> bool {
    &&& forall|i: int|
        0 <= i < chunks.len() ==> chunk_in_file(
            #[trigger] chunk_views(chunks)[i],
            rel_path,
            config.language,
            b,
        )
    &&& sorted_by_span(chunk_views(chunks))
}

/// Chunks assembled from definitions are truthful.
pub proof fn lemma_chunked_truthful(config: LanguageConfig, rel_path: Seq<char>, b: Seq<u8>, chunks: Seq<Chunk>)
    requires
        chunked(config, rel_path, b, chunks),
    ensures
        truthful_chunks(config, rel_path, b, chunks),
{
    let defs = choose|defs: Seq<DefView>|
        defs_ordered(defs) && defs_fit(defs, line_count(b)) && no_module_defs(defs) && chunk_views(
            chunks,
        ) == #[trigger] assembled(rel_path, config.language, b, defs);
    lemma_assembled_chunks(rel_path, config.language, b, defs);
}

/// The definitions a file's chunks are assembled from: those that the
/// language's chunk query captures in the file's syntax tree, ordered outer
/// before inner; none for an empty file, or should any fall off the file's
/// lines.
pub open spec fn file_defs(config: LanguageConfig, b: Seq<u8>) -> Seq<DefView> {
    let d = captured_defs(TreeSite { language: config.language, source: b }, config.chunk_query@);
    if line_count(b) > 0 && defs_fit(d, line_count(b)) {
        d
    } else {
        seq![]
    }
}

/// Chunking a file succeeds: tree-sitter accepts the language's grammar
/// and, unless the file is empty, compiles its chunk query.
pub open spec fn chunking_succeeds(config: LanguageConfig, b: Seq<u8>) -> bool {
    grammar_accepted(config.language) && (line_count(b) == 0 || query_compiles(
        config.language,
        config.chunk_query@,
    ))
}

/// What chunking a file gives: the error of the grammar, if tree-sitter
/// rejects it, else of the chunk query, if it does not compile; otherwise
/// the chunks assembled from the definitions the query captures. These are
/// truthful and ordered by span; an empty file has none.
pub open spec fn chunking_result(
    config: LanguageConfig,
    rel_path: Seq<char>,
    b: Seq<u8>,
    res: Result<Vec<Chunk>>,
) -> bool {
    &&& res is Ok == chunking_succeeds(config, b)
    &&& res matches Err(e) ==> if !grammar_accepted(config.language) {
        e matches Error::Grammar { language, .. } && language@ == language_name(config.language)
    } else {
        e matches Error::Query { language, .. } && language@ == language_name(config.language)
    }
    &&& res matches Ok(chunks) ==> chunk_views(chunks@) == assembled(
        rel_path,
        config.language,
        b,
        file_defs(config, b),
    )
    &&& res matches Ok(chunks) ==> chunked(config, rel_path, b, chunks@)
    &&& res matches Ok(chunks) ==> truthful_chunks(config, rel_path, b, chunks@)
    &&& line_count(b) == 0 ==> (res matches Ok(chunks) ==> chunks@.len() == 0)
}

/// `tree_sitter::Parser::set_language` with the config's grammar.
fn set_language_of(parser: &mut ChunkParser, config: &LanguageConfig) -> (res: Result<()>)
    ensures
        res is Ok == grammar_accepted(config.language),
        res is Ok ==> final(parser)@ == Some(config.language),
        res is Err ==> final(parser)@ == old(parser)@,
        res matches Err(e) ==> e matches Error::Grammar { language, .. } && language@
            == language_name(config.language),
{
    match set_parser_language(parser, &config.ts_language()) {
        Ok(()) => Ok(()),
        Err(source) => Err(Error::Grammar { language: config.language.name(), source }),
    }
}

/// Chunk a single source string with a given parser. Chunking never fails
/// on bad syntax: tree-sitter produces a tree with error nodes, and anything
/// uncaptured falls into module chunks. It fails only on a grammar that
/// tree-sitter rejects or a chunk query that does not compile.
pub fn chunk_source_with(
    parser: &mut ChunkParser,
    config: &LanguageConfig,
    rel_path: &str,
    source: &str,
) -> (res: Result<Vec<Chunk>>)
    ensures
        chunking_result(*config, rel_path@, source.spec_bytes(), res),
        grammar_accepted(config.language) ==> final(parser)@ == Some(config.language),
{
    let ghost b = source.spec_bytes();
    match set_language_of(parser, config) {
        Ok(()) => {},
        Err(e) => {
            return Err(e);
        },
    }
    let lines = LineIndex::new(source);
    if lines.count == 0 {
        let none: Vec<Chunk> = Vec::new();
        proof {
            let empty = Seq::<DefView>::empty();
            assert(file_defs(*config, b) =~= empty);
            assert(crate::assemble::nest(empty) =~= Seq::<crate::assemble::TreeView>::empty());
            assert(crate::assemble::gap_runs(crate::assemble::nest(empty), 0, 1, None) =~= Seq::<(int, int)>::empty());
            assert(chunk_views(none@) =~= assembled(rel_path@, config.language, b, empty));
            assert(chunked(*config, rel_path@, b, none@));
            lemma_chunked_truthful(*config, rel_path@, b, none@);
        }
        return Ok(none);
    }
    let tree = match parse_text(parser, source) {
        Some(t) => t,
        None => unreached(),
    };
    let root = root_node(&tree);
    let captured = match collect_definitions(config, &root, source) {
        Ok(defs) => defs,
        Err(e) => {
            return Err(e);
        },
    };
    // Definitions off the file's lines cannot come from its syntax tree;
    // should any, degrade to module chunks.
    let defs = if defs_fit_lines(&captured, lines.count) {
        captured
    } else {
        Vec::new()
    };
    proof {
        assert(def_views(Seq::<Def>::empty()) =~= Seq::<DefView>::empty());
        assert(def_views(defs@) == file_defs(*config, b));
    }
    let chunks = assemble_chunks(rel_path, config.language, source, &lines, defs);
    assert(defs_ordered(def_views(defs@)));
    assert(no_module_defs(def_views(defs@))) by {
        assert forall|i: int| 0 <= i < def_views(defs@).len() implies (#[trigger] def_views(defs@)[i]).kind
            != ChunkKind::Module by {
            assert(def_views(defs@)[i] == defs@[i]@);
        }
    }
    proof {
        assert(chunked(*config, rel_path@, b, chunks@));
        lemma_chunked_truthful(*config, rel_path@, b, chunks@);
    }
    Ok(chunks)
}

/// Chunk a single source string, with a parser of its own.
pub fn chunk_source(config: &LanguageConfig, rel_path: &str, source: &str) -> (res: Result<
    Vec<Chunk>,
>)
    ensures
        chunking_result(*config, rel_path@, source.spec_bytes(), res),
{
    let mut parser = ChunkParser::new();
    chunk_source_with(&mut parser, config, rel_path, source)
}

/// `r` is the first non-empty line of `s`, trimmed: it runs from the first
/// non-whitespace character `s[k]` to the last non-whitespace character
/// `s[j]` before the next newline; empty if `s` is all whitespace.
pub open spec fn is_signature(s: Seq<char>, r: Seq<char>) -> bool {
    if all_ws(s) {
        r.len() == 0
    } else {
        exists|k: int, j: int|
            #![trigger s.subrange(k, j + 1)]
            0 <= k <= j < s.len() && r == s.subrange(k, j + 1) && (forall|q: int|
                0 <= q < k ==> is_ws(#[trigger] s[q])) && !is_ws(s[k]) && !is_ws(s[j]) && (forall|
                q: int,
            | k <= q <= j ==> #[trigger] s[q] != '\n') && (forall|q: int|
                j < q < s.len() && !is_ws(#[trigger] s[q]) ==> exists|m: int|
                    j < m < q && #[trigger] s[m] == '\n')
    }
}

/// The text a chunk is embedded from: its file path and qualified name, so
/// that the vector carries location context, then its text.
pub open spec fn embedding_of(c: ChunkView) -> Seq<char> {
    match c.name {
        Some(n) => c.path + " "@ + n + "\n"@ + c.text,
        None => c.path + "\n"@ + c.text,
    }
}

impl Chunk {
    /// First non-empty line, trimmed: used as the signature in output.
    pub fn signature(&self) -> (res: &str)
        ensures
            is_signature(self.text@, res@),
    {
        let s = self.text.as_str();
        let ghost v = s@;
        let n = s.unicode_len();
        let mut idx: usize = 0;
        let mut first: usize = 0;
        let mut last: usize = 0;
        let mut found = false;
        let mut done = false;
        for c in it: s.chars()
            invariant
                it.seq() == v,
                v == s@,
                n == v.len(),
                idx == it.index(),
                idx <= n,
                !found ==> !done,
                !found ==> forall|q: int| 0 <= q < idx ==> is_ws(#[trigger] v[q]),
                found ==> {
                    &&& 0 <= first <= last < idx
                    &&& forall|q: int| 0 <= q < first ==> is_ws(#[trigger] v[q])
                    &&& !is_ws(v[first as int])
                    &&& !is_ws(v[last as int])
                    &&& forall|q: int| first <= q <= last ==> #[trigger] v[q] != '\n'
                    &&& !done ==> forall|q: int| last < q < idx ==> is_ws(#[trigger] v[q]) && v[q] != '\n'
                    &&& done ==> exists|m: int| last < m < idx && #[trigger] v[m] == '\n' && forall|q: int|
                        last < q < m ==> is_ws(#[trigger] v[q])
                },
        {
            assert(v[idx as int] == c);
            if !done {
                if !found {
                    if !is_whitespace(c) {
                        found = true;
                        first = idx;
                        last = idx;
                        assert(c != '\n');
                    }
                } else if c == '\n' {
                    done = true;
                    assert(v[idx as int] == '\n');
                } else if !is_whitespace(c) {
                    last = idx;
                }
            }
            idx = idx + 1;
        }
        if !found {
            assert(all_ws(v));
            let e = s.substring_char(0, 0);
            assert(e@.len() == 0);
            e
        } else {
            let r = s.substring_char(first, last + 1);
            assert(!all_ws(v)) by {
                assert(!is_ws(v[first as int]));
            }
            assert forall|q: int| last < q < v.len() && !is_ws(#[trigger] v[q]) implies exists|m: int|
                last < m < q && #[trigger] v[m] == '\n' by {
                if done {
                    let m = choose|m: int| last < m < idx && #[trigger] v[m] == '\n' && forall|q2: int|
                        last < q2 < m ==> is_ws(#[trigger] v[q2]);
                    assert(m < q) by {
                        if q < m {
                            assert(is_ws(v[q]));
                        }
                        if q == m {
                            assert(is_ws(v[q]));
                        }
                    }
                }
            }
            assert(is_signature(v, r@)) by {
                assert(r@ == v.subrange(first as int, last + 1));
            }
            r
        }
    }

    /// The text that gets embedded: file path and qualified name are
    /// prepended so the vector carries location context.
    pub fn embedding_text(&self) -> (res: String)
        ensures
            res@ == embedding_of(self@),
    {
        let mut t = String::from_str(self.path.as_str());
        match &self.name {
            Some(name) => {
                t.append(" ");
                t.append(name.as_str());
                t.append("\n");
                t.append(self.text.as_str());
            },
            None => {
                t.append("\n");
                t.append(self.text.as_str());
            },
        }
        t
    }
}

/// A file that was walked but could not be chunked (unreadable, not UTF-8).
#[derive(Debug)]
pub struct SkippedFile {
    pub rel_path: String,
    pub reason: String,
}

/// Result of chunking a set of files. Per-file problems skip that file
/// instead of failing the run.
#[derive(Debug)]
pub struct ChunkOutcome {
    pub chunks: Vec<Chunk>,
    pub skipped: Vec<SkippedFile>,
}

impl Default for ChunkOutcome {
    fn default() -> (res: Self)
        ensures
            res.chunks@.len() == 0,
            res.skipped@.len() == 0,
    {
        ChunkOutcome { chunks: Vec::new(), skipped: Vec::new() }
    }
}

/// `String::from_utf8`: the text of the bytes, if they are valid UTF-8.
#[verifier::external_body]
fn string_from_utf8(bytes: Vec<u8>) -> (res: Option<String>)
    ensures
        res is Some <==> vstd::utf8::valid_utf8(bytes@),
        res matches Some(s) ==> vstd::utf8::encode_utf8(s@) == bytes@,
{
    String::from_utf8(bytes).ok()
}

/// The reason a file is skipped when chunking its text fails: the message
/// of the error that occurred.
pub open spec fn failure_reason(config: LanguageConfig) -> Seq<char> {
    if !grammar_accepted(config.language) {
        "tree-sitter rejected the "@ + language_name(config.language) + " grammar"@
    } else {
        "invalid chunk query for "@ + language_name(config.language)
    }
}

/// Chunk one file from what reading it gave: its bytes, or the message of
/// the read error. A failed read, bytes that are not UTF-8, or a failure to
/// chunk skip the file with a reason.
pub fn chunk_file(
    parser: &mut ChunkParser,
    file: &crate::walk::SourceFile,
    contents: std::result::Result<Vec<u8>, String>,
) -> (res: std::result::Result<Vec<Chunk>, SkippedFile>)
    ensures
        res matches Err(skip) ==> skip.rel_path@ == file.rel_path@,
        match contents {
            Err(msg) => (res matches Err(skip) && skip.reason@ == "read failed: "@ + msg@),
            Ok(bytes) => if !vstd::utf8::valid_utf8(bytes@) {
                (res matches Err(skip) && skip.reason@ == "not valid UTF-8"@)
            } else {
                &&& res is Ok == chunking_succeeds(file.config, bytes@)
                &&& (res matches Ok(chunks) ==> chunk_views(chunks@) == assembled(
                    file.rel_path@,
                    file.config.language,
                    bytes@,
                    file_defs(file.config, bytes@),
                ))
                &&& (res matches Ok(chunks) ==> chunked(file.config, file.rel_path@, bytes@, chunks@))
                &&& (res matches Ok(chunks) ==> truthful_chunks(file.config, file.rel_path@, bytes@, chunks@))
                &&& (res matches Err(skip) ==> skip.reason@ == failure_reason(file.config))
            },
        },
{
    let bytes = match contents {
        Ok(b) => b,
        Err(msg) => {
            let mut reason = String::from_str("read failed: ");
            reason.append(msg.as_str());
            return Err(SkippedFile { rel_path: file.rel_path.clone(), reason });
        },
    };
    let ghost b = bytes@;
    let source = match string_from_utf8(bytes) {
        Some(s) => s,
        None => {
            return Err(
                SkippedFile {
                    rel_path: file.rel_path.clone(),
                    reason: String::from_str("not valid UTF-8"),
                },
            );
        },
    };
    let text = source.as_str();
    assert(text.spec_bytes() == b);
    match chunk_source_with(parser, &file.config, file.rel_path.as_str(), text) {
        Ok(chunks) => {
            proof {
                lemma_chunked_truthful(file.config, file.rel_path@, b, chunks@);
            }
            Ok(chunks)
        },
        Err(e) => {
            let reason = e.message();
            Err(SkippedFile { rel_path: file.rel_path.clone(), reason })
        },
    }
}

/// The chunks of the files that were chunked, in order.
pub open spec fn gathered_chunks(rs: Seq<std::result::Result<Vec<Chunk>, SkippedFile>>) -> Seq<Chunk>
    decreases rs.len(),
{
    if rs.len() == 0 {
        seq![]
    } else {
        let head = match rs[0] {
            Ok(c) => c@,
            Err(_) => seq![],
        };
        head + gathered_chunks(rs.drop_first())
    }
}

/// The files that were skipped, in order.
pub open spec fn gathered_skips(rs: Seq<std::result::Result<Vec<Chunk>, SkippedFile>>) -> Seq<SkippedFile>
    decreases rs.len(),
{
    if rs.len() == 0 {
        seq![]
    } else {
        let head = match rs[0] {
            Ok(_) => seq![],
            Err(s) => seq![s],
        };
        head + gathered_skips(rs.drop_first())
    }
}

/// Merge per-file results: chunks of chunked files, and the skipped files.
pub fn gather_outcome(results: Vec<std::result::Result<Vec<Chunk>, SkippedFile>>) -> (res: ChunkOutcome)
    ensures
        res.chunks@ == gathered_chunks(results@),
        res.skipped@ == gathered_skips(results@),
{
    let ghost all = results@;
    let mut rest = results;
    let mut outcome = ChunkOutcome::default();
    while rest.len() > 0
        invariant
            all.len() >= rest@.len(),
            rest@ == all.take(rest@.len() as int),
            outcome.chunks@ == gathered_chunks(all.skip(rest@.len() as int)),
            outcome.skipped@ == gathered_skips(all.skip(rest@.len() as int)),
        decreases rest@.len(),
    {
        let ghost k = rest@.len() - 1;
        let r = rest.pop().unwrap();
        assert(all[k] == r) by {
            assert(all.take(k + 1)[k] == all[k]);
        }
        assert(rest@ =~= all.take(k));
        assert(all.skip(k).drop_first() =~= all.skip(k + 1));
        assert(all.skip(k)[0] == r);
        match r {
            Ok(mut chunks) => {
                let ghost c = chunks@;
                chunks.append(&mut outcome.chunks);
                outcome.chunks = chunks;
                assert(outcome.skipped@ =~= Seq::<SkippedFile>::empty() + outcome.skipped@);
            },
            Err(skip) => {
                outcome.skipped.insert(0, skip);
                assert(outcome.skipped@ =~= seq![skip] + gathered_skips(all.skip(k + 1)));
                assert(outcome.chunks@ =~= Seq::<Chunk>::empty() + outcome.chunks@);
            },
        }
    }
    assert(all.skip(0) =~= all);
    outcome
}

/// The windows of a span: none for an empty span; otherwise the first
/// starts at `start`, the last ends at `end`, each starts right after the
/// one before, and each is at most `MAX_CHUNK_LINES` lines long.
pub proof fn lemma_windows(start: int, end: int)
    ensures
        (windows(start, end).len() == 0) == (start > end),
        start <= end ==> windows(start, end)[0].0 == start && windows(start, end).last().1 == end,
        forall|i: int|
            0 <= i < windows(start, end).len() ==> start <= (#[trigger] windows(start, end)[i]).0
                <= windows(start, end)[i].1 <= end && windows(start, end)[i].1 - windows(
                start,
                end,
            )[i].0 < MAX_CHUNK_LINES,
        forall|i: int|
            0 < i < windows(start, end).len() ==> #[trigger] windows(start, end)[i].0 == windows(
                start,
                end,
            )[i - 1].1 + 1,
    decreases end - start + 1,
{
    if start <= end {
        let we = if end - start < MAX_CHUNK_LINES - 1 {
            end
        } else {
            start + MAX_CHUNK_LINES - 1
        };
        lemma_windows(we + 1, end);
        let w = windows(start, end);
        let r = windows(we + 1, end);
        assert(w == seq![(start, we)] + r);
        assert forall|i: int| 0 <= i < w.len() implies start <= (#[trigger] w[i]).0 <= w[i].1 <= end
            && w[i].1 - w[i].0 < MAX_CHUNK_LINES by {
            if i > 0 {
                assert(w[i] == r[i - 1]);
            }
        }
        assert forall|i: int| 0 < i < w.len() implies #[trigger] w[i].0 == w[i - 1].1 + 1 by {
            assert(w[i] == r[i - 1]);
            if i > 1 {
                assert(w[i - 1] == r[i - 2]);
                assert(r[i - 1].0 == r[i - 2].1 + 1);
            } else {
                assert(w[0] == (start, we));
                assert(r[0].0 == we + 1);
            }
        }
        if r.len() > 0 {
            assert(w.last() == r.last());
        }
    }
}

/// Every line of a span lies in one of its windows.
pub proof fn lemma_windows_cover(start: int, end: int, l: int)
    requires
        start <= l <= end,
    ensures
        exists|i: int|
            0 <= i < windows(start, end).len() && (#[trigger] windows(start, end)[i]).0 <= l
                <= windows(start, end)[i].1,
    decreases end - start + 1,
{
    let we = if end - start < MAX_CHUNK_LINES - 1 {
        end
    } else {
        start + MAX_CHUNK_LINES - 1
    };
    let w = windows(start, end);
    assert(w == seq![(start, we)] + windows(we + 1, end));
    if l <= we {
        assert(w[0].0 <= l <= w[0].1);
    } else {
        lemma_windows_cover(we + 1, end, l);
        let i = choose|i: int|
            0 <= i < windows(we + 1, end).len() && (#[trigger] windows(we + 1, end)[i]).0 <= l
                <= windows(we + 1, end)[i].1;
        assert(w[i + 1] == windows(we + 1, end)[i]);
    }
}

/// The texts of a sequence of chunks, one after the other.
pub open spec fn joined_text(cs: Seq<ChunkView>) -> Seq<char>
    decreases cs.len(),
{
    if cs.len() == 0 {
        seq![]
    } else {
        cs[0].text + joined_text(cs.drop_first())
    }
}

/// UTF-8 encoding of a concatenation is the concatenation of encodings.
pub proof fn lemma_encode_concat(a: Seq<char>, c: Seq<char>)
    ensures
        encode_utf8(a + c) == encode_utf8(a) + encode_utf8(c),
    decreases a.len(),
{
    if a.len() == 0 {
        assert(a + c =~= c);
    } else {
        lemma_encode_concat(a.drop_first(), c);
        assert((a + c).drop_first() =~= a.drop_first() + c);
        assert((a + c)[0] == a[0]);
        assert(encode_utf8(a + c) =~= encode_utf8(a) + encode_utf8(c));
    }
}

/// The bytes of a line span are valid UTF-8 that encodes its text.
pub proof fn lemma_span_text(b: Seq<u8>, start: int, end: int)
    requires
        valid_utf8(b),
        crate::lines::span_ok(b, start, end),
    ensures
        encode_utf8(span_text(b, start, end)) == span_bytes(b, start, end),
{
    lemma_span(b, start, end);
    let x = line_begin(b, start);
    let y = line_end(b, end);
    crate::text::lemma_boundary_in_prefix(b, y, x);
    vstd::utf8::valid_utf8_split(b.subrange(0, y), x);
    assert(b.subrange(0, y).subrange(x, y as int) =~= b.subrange(x, y));
    vstd::utf8::decode_utf8_encode_utf8(b.subrange(x, y));
}

/// Consecutive line spans put together are the span of their union: the
/// text of lines `a..=m` followed by that of lines `m + 1..=c` is the text
/// of lines `a..=c`.
pub proof fn lemma_span_text_concat(b: Seq<u8>, a: int, m: int, c: int)
    requires
        valid_utf8(b),
        1 <= a <= m < c <= line_count(b),
    ensures
        span_text(b, a, m) + span_text(b, m + 1, c) == span_text(b, a, c),
{
    lemma_span_text(b, a, m);
    lemma_span_text(b, m + 1, c);
    lemma_span_text(b, a, c);
    lemma_span_concat(b, a, m, c);
    let t1 = span_text(b, a, m);
    let t2 = span_text(b, m + 1, c);
    lemma_encode_concat(t1, t2);
    vstd::utf8::encode_utf8_decode_utf8(t1 + t2);
    vstd::utf8::encode_utf8_decode_utf8(span_text(b, a, c));
}

/// Every definition that the chunk query captures in a file becomes a
/// chunk of it, but for those nested in another (see
/// `lemma_definitions_become_chunks`).
pub proof fn lemma_captured_definitions_become_chunks(
    config: LanguageConfig,
    rel_path: Seq<char>,
    b: Seq<u8>,
    i: int,
)
    requires
        0 <= i < crate::assemble::nest(file_defs(config, b)).len(),
    ensures
        definition_chunked(rel_path, config.language, b, file_defs(config, b), i),
{
    crate::assemble::lemma_definitions_become_chunks(rel_path, config.language, b, file_defs(config, b), i);
}

/// The windows of a span put back together are the span: the texts of its
/// chunks, one after the other, are the text of the span.
pub proof fn lemma_split_rejoins(
    path: Seq<char>,
    language: Language,
    b: Seq<u8>,
    kind: ChunkKind,
    name: Option<Seq<char>>,
    start: int,
    end: int,
)
    requires
        valid_utf8(b),
        1 <= start <= end <= line_count(b),
    ensures
        joined_text(split_views(path, language, b, kind, name, start, end)) == span_text(b, start, end),
    decreases end - start + 1,
{
    let we = if end - start < MAX_CHUNK_LINES - 1 {
        end
    } else {
        start + MAX_CHUNK_LINES - 1
    };
    lemma_split_step(path, language, b, kind, name, start, end);
    let rest = split_views(path, language, b, kind, name, we + 1, end);
    let whole = split_views(path, language, b, kind, name, start, end);
    assert(whole.drop_first() =~= rest);
    lemma_span_text(b, start, we);
    lemma_span_text(b, start, end);
    if we == end {
        assert(windows(we + 1, end) =~= Seq::<(int, int)>::empty());
        assert(joined_text(rest) =~= Seq::<char>::empty());
        assert(span_text(b, start, we) + Seq::<char>::empty() =~= span_text(b, start, we));
    } else {
        lemma_split_rejoins(path, language, b, kind, name, we + 1, end);
        lemma_span_text(b, we + 1, end);
        lemma_span_concat(b, start, we, end);
        let t1 = span_text(b, start, we);
        let t2 = span_text(b, we + 1, end);
        lemma_encode_concat(t1, t2);
        vstd::utf8::encode_utf8_decode_utf8(t1 + t2);
        assert(span_text(b, start, end) == decode_utf8(encode_utf8(t1 + t2)));
    }
}

} // verus!
