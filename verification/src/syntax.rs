//! Definitions captured from the syntax tree: the rules that turn each
//! match of a language's chunk query into a definition span (export
//! wrappers, attached doc comments, line numbers), stated over what
//! tree-sitter gives for the nodes (see `sitter`), then the order of the
//! definitions, outer before inner.
use vstd::prelude::*;
use vstd::string::StringSliceAdditionalSpecFns;
use crate::assemble::{Def, DefView, def_views};
use crate::chunk::ChunkKind;
use crate::error::Error;
use crate::language::{LanguageConfig, language_name};
use crate::language::typescript::ts_kind;
use crate::sitter::{
    NodeAt, NodeView, SyntaxNode, TreeSite, are_captures, capture_index, capture_index_of, capture_view,
    new_cursor, next_match, node_end_byte, node_end_byte_at, node_end_point_at, node_end_position,
    node_has_parent, node_has_prev_sibling, node_kind, node_kind_at, node_parent, node_prev_sibling,
    node_start_byte, node_start_byte_at, node_start_point_at, node_start_position, parent_view, prev_view,
    query_compiles, query_matches, run_query,
};
use crate::text::{byte_slice, str_eq};

verus! {

/// 1-based inclusive line span of a node from its 0-based positions. A node
/// ending at column 0 stops *before* that line.
pub open spec fn line_span(start_row: int, end_row: int, end_column: int) -> (int, int) {
    let start = start_row + 1;
    let end = end_row + 1;
    if end_column == 0 && end > start {
        (start, end - 1)
    } else {
        (start, end)
    }
}

pub fn lines_of_positions(start_row: usize, end_row: usize, end_column: usize) -> (res: (
    usize,
    usize,
))
    requires
        start_row < usize::MAX,
        end_row < usize::MAX,
    ensures
        res.0 == line_span(start_row as int, end_row as int, end_column as int).0,
        res.1 == line_span(start_row as int, end_row as int, end_column as int).1,
{
    let start = start_row + 1;
    let mut end = end_row + 1;
    if end_column == 0 && end > start {
        end = end - 1;
    }
    (start, end)
}

/// The rows of a node can be counted from 1 in a `usize`.
pub open spec fn rows_fit(n: NodeView) -> bool {
    node_start_point_at(n).0 < usize::MAX && node_end_point_at(n).0 < usize::MAX
}

/// The 1-based inclusive line span of a node.
pub open spec fn node_lines(n: NodeView) -> (int, int) {
    line_span(
        node_start_point_at(n).0 as int,
        node_end_point_at(n).0 as int,
        node_end_point_at(n).1 as int,
    )
}

/// tree-sitter positions are 0-based; convert to a 1-based inclusive line
/// span (`None` for a row too large to count from 1 in a `usize`, which
/// cannot happen where a `usize` holds more than a `u32`).
fn node_line_span(node: &SyntaxNode) -> (res: Option<(usize, usize)>)
    ensures
        res is Some == rows_fit(node@),
        res matches Some(span) ==> span.0 == node_lines(node@).0 && span.1 == node_lines(node@).1,
        res matches Some(span) ==> span.0 >= 1 && span.1 >= 1,
        usize::MAX > u32::MAX ==> res is Some,
{
    let (start_row, _) = node_start_position(node);
    let (end_row, end_column) = node_end_position(node);
    if start_row < usize::MAX && end_row < usize::MAX {
        Some(lines_of_positions(start_row, end_row, end_column))
    } else {
        None
    }
}

/// `t` is the text of `source` between two character boundaries.
pub open spec fn is_source_text(source: &str, t: Seq<char>) -> bool {
    exists|a: int, b: int|
        0 <= a <= b <= source.spec_bytes().len() && vstd::utf8::is_char_boundary(
            source.spec_bytes(),
            a,
        ) && vstd::utf8::is_char_boundary(source.spec_bytes(), b) && t
            == #[trigger] vstd::utf8::decode_utf8(source.spec_bytes().subrange(a, b))
}

/// The text of the bytes `a..b` of `b`; empty unless `a..b` is a range of
/// `b` whose ends are character boundaries.
pub open spec fn range_text(bytes: Seq<u8>, a: int, b: int) -> Seq<char> {
    if 0 <= a <= b <= bytes.len() && vstd::utf8::is_char_boundary(bytes, a) && vstd::utf8::is_char_boundary(
        bytes,
        b,
    ) {
        vstd::utf8::decode_utf8(bytes.subrange(a, b))
    } else {
        seq![]
    }
}

/// The source text of a node's byte range `a..b`; empty if the range does
/// not fall on character boundaries of `source`.
fn node_text(source: &str, a: usize, b: usize) -> (res: String)
    ensures
        res@ == range_text(source.spec_bytes(), a as int, b as int),
        res@.len() == 0 || is_source_text(source, res@),
{
    let len = source.as_bytes().len();
    if a <= b && b <= len && source.is_char_boundary(a) && source.is_char_boundary(b) {
        let t = byte_slice(source, a, b);
        let res = t.to_owned();
        assert(is_source_text(source, res@)) by {
            assert(res@ == vstd::utf8::decode_utf8(source.spec_bytes().subrange(a as int, b as int)));
        }
        res
    } else {
        String::new()
    }
}

/// A preceding sibling of kind `prev_kind` on rows
/// `prev_start_row..=prev_end_row` (0-based) is a doc comment of what starts
/// on row `start_row`: a comment that ends on the row right above it.
pub open spec fn doc_comment_attaches(prev_kind: Seq<char>, prev_start_row: int, prev_end_row: int, start_row: int) -> bool {
    &&& prev_kind == "comment"@
    &&& prev_end_row + 1 == start_row
    &&& prev_start_row < start_row
}

/// Whether a preceding sibling is a doc comment of what follows it.
pub fn attaches_as_doc_comment(prev_kind: &str, prev_start_row: usize, prev_end_row: usize, start_row: usize) -> (res: bool)
    ensures
        res == doc_comment_attaches(prev_kind@, prev_start_row as int, prev_end_row as int, start_row as int),
{
    str_eq(prev_kind, "comment") && prev_end_row < start_row && start_row - prev_end_row == 1
        && prev_start_row < start_row
}

/// The previous sibling of `n` is a doc comment of it.
pub open spec fn has_doc_comment(n: NodeView) -> bool {
    node_has_prev_sibling(n) && doc_comment_attaches(
        node_kind_at(prev_view(n)),
        node_start_point_at(prev_view(n)).0 as int,
        node_end_point_at(prev_view(n)).0 as int,
        node_start_point_at(n).0 as int,
    )
}

/// The first of the doc comments that sit directly on top of `n`, each
/// ending on the line above the next; `n` itself if there is none.
pub open spec fn doc_start(n: NodeView) -> NodeView
    decreases node_start_point_at(n).0,
{
    if has_doc_comment(n) {
        doc_start(prev_view(n))
    } else {
        n
    }
}

/// The node whose span a captured definition node takes: its `export`
/// statement if it is wrapped in one, else itself.
pub open spec fn span_node(d: NodeView) -> NodeView {
    if node_has_parent(d) && node_kind_at(parent_view(d)) == "export_statement"@ {
        parent_view(d)
    } else {
        d
    }
}

/// The definition of a captured definition node named `name`: the span of
/// its `export` wrapper, if any, grown at the start to its doc comments;
/// `None` for rows too large to count from 1.
pub open spec fn definition_at(d: NodeView, name: Seq<char>) -> Option<DefView> {
    let node = span_node(d);
    let first = doc_start(node);
    if rows_fit(first) && rows_fit(node) {
        Some(
            DefView {
                start_byte: node_start_byte_at(first) as int,
                end_byte: node_end_byte_at(node) as int,
                start_line: node_lines(first).0,
                end_line: node_lines(node).1,
                kind: ts_kind(node_kind_at(d)),
                name,
            },
        )
    } else {
        None
    }
}

pub open spec fn def_option_view(d: Option<Def>) -> Option<DefView> {
    match d {
        Some(x) => Some(x@),
        None => None,
    }
}

/// The definition captured by a match: its node grows to an `export`
/// wrapper, and its start to the comments that sit directly on top of it
/// (each ending on the line above the next).
fn definition_of(config: &LanguageConfig, def_node: SyntaxNode, name: String) -> (res: Option<Def>)
    ensures
        def_option_view(res) == definition_at(def_node@, name@),
        res matches Some(d) ==> d.start_line >= 1 && d.end_line >= 1 && d.name == name && d.kind
            != ChunkKind::Module,
        usize::MAX > u32::MAX ==> res is Some,
{
    // Kind comes from the captured node itself...
    let kind = config.kind_for_node(node_kind(&def_node));
    // ...but the chunk span grows to include an `export` wrapper, so the
    // chunk text keeps the `export` keyword.
    let ghost d = def_node@;
    let node = match node_parent(&def_node) {
        Some(parent) => {
            if str_eq(node_kind(&parent), "export_statement") {
                parent
            } else {
                def_node
            }
        },
        None => def_node,
    };
    assert(node@ == span_node(d));
    // Doc comments immediately above a definition belong to it: walk
    // preceding comment siblings while they touch the line above.
    let (first_row, _) = node_start_position(&node);
    let mut start_row = first_row;
    let mut start_node = node;
    loop
        invariant
            doc_start(start_node@) == doc_start(node@),
            start_row == node_start_point_at(start_node@).0,
        ensures
            start_node@ == doc_start(node@),
        decreases start_row,
    {
        match node_prev_sibling(&start_node) {
            Some(prev) => {
                let (prev_start_row, _) = node_start_position(&prev);
                let (prev_end_row, _) = node_end_position(&prev);
                if attaches_as_doc_comment(node_kind(&prev), prev_start_row, prev_end_row, start_row) {
                    start_node = prev;
                    start_row = prev_start_row;
                } else {
                    break;
                }
            },
            None => {
                break;
            },
        }
    }
    match (node_line_span(&start_node), node_line_span(&node)) {
        (Some((start_line, _)), Some((_, end_line))) => Some(
            Def {
                start_byte: node_start_byte(&start_node),
                end_byte: node_end_byte(&node),
                start_line,
                end_line,
                kind,
                name,
            },
        ),
        _ => None,
    }
}

/// `a` sorts before `b`: by start ascending, then wider (later end) first,
/// so that an outer definition comes before the ones inside it.
pub open spec fn def_before(a: DefView, b: DefView) -> bool {
    a.start_byte < b.start_byte || (a.start_byte == b.start_byte && a.end_byte > b.end_byte)
}

pub open spec fn same_span(a: DefView, b: DefView) -> bool {
    a.start_byte == b.start_byte && a.end_byte == b.end_byte
}

/// Strictly ordered by `def_before`: sorted, no two with one span.
pub open spec fn defs_ordered(s: Seq<DefView>) -> bool {
    forall|i: int, j: int| 0 <= i < j < s.len() ==> def_before(#[trigger] s[i], #[trigger] s[j])
}

/// Insert `x` at its place in order, unless a definition with the same span
/// is already there.
pub open spec fn insert_def(t: Seq<DefView>, x: DefView) -> Seq<DefView>
    decreases t.len(),
{
    if t.len() == 0 {
        seq![x]
    } else if same_span(t[0], x) {
        t
    } else if def_before(x, t[0]) {
        seq![x] + t
    } else {
        seq![t[0]] + insert_def(t.drop_first(), x)
    }
}

/// The definitions sorted outer before inner, keeping the first of those
/// that share a span (one declaration can bind several functions and is
/// captured once per binding with an identical span).
pub open spec fn ordered_defs(s: Seq<DefView>) -> Seq<DefView>
    decreases s.len(),
{
    if s.len() == 0 {
        seq![]
    } else {
        insert_def(ordered_defs(s.drop_last()), s.last())
    }
}

proof fn lemma_insert_def_at(t: Seq<DefView>, x: DefView, p: int)
    requires
        0 <= p <= t.len(),
        forall|q: int| 0 <= q < p ==> def_before(#[trigger] t[q], x),
        p < t.len() ==> !def_before(t[p], x),
    ensures
        insert_def(t, x) == (if p < t.len() && same_span(t[p], x) {
            t
        } else {
            t.insert(p, x)
        }),
    decreases p,
{
    if p == 0 {
        if t.len() > 0 && !same_span(t[0], x) {
            assert(def_before(x, t[0]));
        }
        assert(insert_def(t, x) =~= (if p < t.len() && same_span(t[p], x) {
            t
        } else {
            t.insert(p, x)
        }));
    } else {
        let r = t.drop_first();
        assert forall|q: int| 0 <= q < p - 1 implies def_before(#[trigger] r[q], x) by {
            assert(r[q] == t[q + 1]);
        }
        if p - 1 < r.len() {
            assert(r[p - 1] == t[p]);
        }
        lemma_insert_def_at(r, x, p - 1);
        assert(def_before(t[0], x));
        if p < t.len() && same_span(t[p], x) {
            assert(seq![t[0]] + r =~= t);
        } else {
            assert(seq![t[0]] + r.insert(p - 1, x) =~= t.insert(p, x));
        }
    }
}

/// Sort definitions outer before inner and drop later ones with a span
/// already taken.
pub fn order_defs(defs: Vec<Def>) -> (res: Vec<Def>)
    ensures
        def_views(res@) == ordered_defs(def_views(defs@)),
{
    let ghost all = def_views(defs@);
    let mut out: Vec<Def> = Vec::new();
    let mut i: usize = 0;
    while i < defs.len()
        invariant
            all == def_views(defs@),
            i <= defs@.len(),
            def_views(out@) == ordered_defs(all.take(i as int)),
        decreases defs@.len() - i,
    {
        let x = defs[i].duplicate();
        assert(all.take(i + 1).drop_last() == all.take(i as int));
        assert(all.take(i + 1).last() == x@);
        let mut p: usize = 0;
        while p < out.len() && (out[p].start_byte < x.start_byte || (out[p].start_byte
            == x.start_byte && out[p].end_byte > x.end_byte))
            invariant
                p <= out@.len(),
                forall|q: int| 0 <= q < p ==> def_before(#[trigger] def_views(out@)[q], x@),
            decreases out@.len() - p,
        {
            p = p + 1;
        }
        proof {
            lemma_insert_def_at(def_views(out@), x@, p as int);
        }
        if p < out.len() && out[p].start_byte == x.start_byte && out[p].end_byte == x.end_byte {
            assert(same_span(def_views(out@)[p as int], x@));
        } else {
            let ghost before = out@;
            out.insert(p, x);
            assert(def_views(out@) =~= def_views(before).insert(p as int, x@));
        }
        i = i + 1;
    }
    assert(all.take(defs@.len() as int) =~= all);
    out
}

/// The position of the last capture of `cs` with index `x`.
pub open spec fn last_capture(cs: Seq<u32>, x: u32) -> Option<int>
    decreases cs.len(),
{
    if cs.len() == 0 {
        None
    } else if cs.last() == x {
        Some(cs.len() - 1)
    } else {
        last_capture(cs.drop_last(), x)
    }
}

/// The definition of match `m` of the query with text `q` over `tree`:
/// its (last) `@definition` node, named by the text of its (last) `@name`
/// node, empty if it has none; `None` without a `@definition` node.
pub open spec fn match_def(tree: TreeSite, q: Seq<char>, m: nat, def_idx: u32, name_idx: u32) -> Option<DefView> {
    let cs = query_matches(tree, q)[m as int];
    let name = if def_idx == name_idx {
        seq![]
    } else {
        match last_capture(cs, name_idx) {
            Some(j) => range_text(
                tree.source,
                node_start_byte_at(capture_view(tree, q, m, j as nat)) as int,
                node_end_byte_at(capture_view(tree, q, m, j as nat)) as int,
            ),
            None => seq![],
        }
    };
    match last_capture(cs, def_idx) {
        Some(j) => definition_at(capture_view(tree, q, m, j as nat), name),
        None => None,
    }
}

/// The definitions of the first `count` matches, in order.
pub open spec fn match_defs(tree: TreeSite, q: Seq<char>, def_idx: u32, name_idx: u32, count: nat) -> Seq<DefView>
    decreases count,
{
    if count == 0 {
        seq![]
    } else {
        let prev = match_defs(tree, q, def_idx, name_idx, (count - 1) as nat);
        match match_def(tree, q, (count - 1) as nat, def_idx, name_idx) {
            Some(d) => prev.push(d),
            None => prev,
        }
    }
}

/// The definitions that the chunk query `q` captures in `tree`, ordered
/// outer before inner: none if the query lacks the `@definition` or `@name`
/// capture.
pub open spec fn captured_defs(tree: TreeSite, q: Seq<char>) -> Seq<DefView> {
    match (capture_index_of(tree.language, q, "definition"@), capture_index_of(tree.language, q, "name"@)) {
        (Some(d), Some(n)) => ordered_defs(match_defs(tree, q, d, n, query_matches(tree, q).len())),
        _ => seq![],
    }
}

/// The text of a node's byte range in `source`.
pub open spec fn capture_text(source: Seq<u8>, n: NodeView) -> Seq<char> {
    range_text(source, node_start_byte_at(n) as int, node_end_byte_at(n) as int)
}

/// The capture indices of a list of captures.
pub open spec fn capture_indices<'t>(cs: Seq<(u32, SyntaxNode<'t>)>) -> Seq<u32> {
    cs.map_values(|c: (u32, SyntaxNode<'t>)| c.0)
}

/// The definition of one match: its `@definition` node, named by the text
/// of its `@name` node (the last of each, if a match has several).
fn match_definition<'t>(
    config: &LanguageConfig,
    captures: &Vec<(u32, SyntaxNode<'t>)>,
    def_idx: u32,
    name_idx: u32,
    source: &str,
    Ghost(tree): Ghost<TreeSite>,
    Ghost(q): Ghost<Seq<char>>,
    Ghost(m): Ghost<nat>,
) -> (res: Option<Def>)
    requires
        tree.source == source.spec_bytes(),
        are_captures(captures@, tree, q, m),
    ensures
        def_option_view(res) == match_def(tree, q, m, def_idx, name_idx),
        res matches Some(d) ==> d.start_line >= 1 && d.end_line >= 1 && d.kind != ChunkKind::Module
            && (d.name@.len() == 0 || is_source_text(source, d.name@)),
{
    let ghost cs = capture_indices(captures@);
    assert(cs =~= query_matches(tree, q)[m as int]);
    let mut def_node: Option<SyntaxNode> = None;
    let mut name = String::new();
    let mut k: usize = 0;
    assert(cs.take(0) =~= Seq::<u32>::empty());
    while k < captures.len()
        invariant
            cs == capture_indices(captures@),
            are_captures(captures@, tree, q, m),
            tree.source == source.spec_bytes(),
            k <= captures@.len(),
            name@.len() == 0 || is_source_text(source, name@),
            def_node is Some == last_capture(cs.take(k as int), def_idx) is Some,
            def_node matches Some(n) ==> n@ == capture_view(
                tree,
                q,
                m,
                last_capture(cs.take(k as int), def_idx)->0 as nat,
            ),
            def_idx == name_idx ==> name@ == Seq::<char>::empty(),
            def_idx != name_idx ==> name@ == (match last_capture(cs.take(k as int), name_idx) {
                Some(j) => capture_text(tree.source, capture_view(tree, q, m, j as nat)),
                None => seq![],
            }),
        decreases captures@.len() - k,
    {
        let (index, node) = captures[k];
        assert(cs.take(k + 1).drop_last() =~= cs.take(k as int));
        assert(cs.take(k + 1).last() == index);
        assert(node@ == capture_view(tree, q, m, k as nat));
        if index == def_idx {
            def_node = Some(node);
        } else if index == name_idx {
            name = node_text(source, node_start_byte(&node), node_end_byte(&node));
        }
        k = k + 1;
    }
    assert(cs.take(captures@.len() as int) =~= cs);
    match def_node {
        Some(node) => definition_of(config, node, name),
        None => None,
    }
}

/// The definitions that the language's chunk query captures in the tree
/// under `root`, ordered outer before inner. It fails exactly when the
/// chunk query does not compile. A query without the `@definition` and
/// `@name` captures captures nothing.
pub fn collect_definitions(config: &LanguageConfig, root: &SyntaxNode, source: &str) -> (res: crate::error::Result<
    Vec<Def>,
>)
    requires
        root@ == (NodeView {
            tree: TreeSite { language: config.language, source: source.spec_bytes() },
            at: NodeAt::Root,
        }),
    ensures
        res is Ok == query_compiles(config.language, config.chunk_query@),
        res matches Err(e) ==> e matches Error::Query { language, .. } && language@
            == language_name(config.language),
        res matches Ok(defs) ==> {
            &&& def_views(defs@) == captured_defs(root@.tree, config.chunk_query@)
            &&& defs_ordered(def_views(defs@))
            &&& forall|i: int|
                0 <= i < defs@.len() ==> (#[trigger] defs@[i]).start_line >= 1 && defs@[i].end_line
                    >= 1 && defs@[i].kind != ChunkKind::Module && (defs@[i].name@.len() == 0
                    || is_source_text(source, defs@[i].name@))
        },
{
    let ghost tree = root@.tree;
    let ghost q = config.chunk_query@;
    let query = match config.query() {
        Ok(q) => q,
        Err(e) => {
            return Err(e);
        },
    };
    // These capture names are part of the language config contract.
    let (def_idx, name_idx) = match (capture_index(&query, "definition"), capture_index(&query, "name")) {
        (Some(d), Some(n)) => (d, n),
        _ => {
            let none: Vec<Def> = Vec::new();
            assert(def_views(none@) =~= Seq::<DefView>::empty());
            return Ok(none);
        },
    };
    let ghost all = query_matches(tree, q);
    let mut found: Vec<Def> = Vec::new();
    let mut cursor = new_cursor();
    let mut run = run_query(&mut cursor, &query, root, source.as_bytes());
    assert(def_views(found@) =~= match_defs(tree, q, def_idx, name_idx, 0));
    loop
        invariant
            run@.0 == tree,
            run@.1 == q,
            all == query_matches(tree, q),
            run@.2 <= all.len(),
            tree.source == source.spec_bytes(),
            def_views(found@) == match_defs(tree, q, def_idx, name_idx, run@.2),
            forall|i: int|
                0 <= i < found@.len() ==> (#[trigger] found@[i]).start_line >= 1 && found@[i].end_line
                    >= 1 && found@[i].kind != ChunkKind::Module && (found@[i].name@.len() == 0
                    || is_source_text(source, found@[i].name@)),
        ensures
            run@.2 == all.len(),
            def_views(found@) == match_defs(tree, q, def_idx, name_idx, run@.2),
            forall|i: int|
                0 <= i < found@.len() ==> (#[trigger] found@[i]).start_line >= 1 && found@[i].end_line
                    >= 1 && found@[i].kind != ChunkKind::Module && (found@[i].name@.len() == 0
                    || is_source_text(source, found@[i].name@)),
        decreases all.len() - run@.2,
    {
        let ghost m = run@.2;
        match next_match(&mut run) {
            None => {
                break;
            },
            Some(captures) => {
                let d = match_definition(
                    config,
                    &captures,
                    def_idx,
                    name_idx,
                    source,
                    Ghost(tree),
                    Ghost(q),
                    Ghost(m),
                );
                let ghost before = found@;
                if let Some(def) = d {
                    found.push(def);
                    assert(def_views(found@) =~= def_views(before).push(def@));
                }
            },
        }
    }
    let defs = order_defs(found);
    proof {
        let fv = def_views(found@);
        lemma_ordered_sorted(fv);
        assert forall|i: int| 0 <= i < defs@.len() implies (#[trigger] defs@[i]).start_line >= 1
            && defs@[i].end_line >= 1 && defs@[i].kind != ChunkKind::Module && (defs@[i].name@.len() == 0 || is_source_text(
            source,
            defs@[i].name@,
        )) by {
            assert(def_views(defs@)[i] == defs@[i]@);
            let k = choose|k: int| 0 <= k < fv.len() && fv[k] == def_views(defs@)[i];
            assert(fv[k] == found@[k]@);
        }
    }
    Ok(defs)
}

#[verifier::rlimit(40)]
proof fn lemma_insert_def(t: Seq<DefView>, x: DefView)
    requires
        defs_ordered(t),
    ensures
        defs_ordered(insert_def(t, x)),
        forall|i: int|
            0 <= i < insert_def(t, x).len() ==> #[trigger] insert_def(t, x)[i] == x || t.contains(
                insert_def(t, x)[i],
            ),
        forall|i: int| 0 <= i < t.len() ==> insert_def(t, x).contains(#[trigger] t[i]),
        exists|i: int| 0 <= i < insert_def(t, x).len() && same_span(#[trigger] insert_def(t, x)[i], x),
        (exists|i: int| 0 <= i < t.len() && same_span(#[trigger] t[i], x)) ==> insert_def(t, x) == t,
        (forall|i: int| 0 <= i < t.len() ==> !same_span(#[trigger] t[i], x)) ==> insert_def(
            t,
            x,
        ).contains(x),
    decreases t.len(),
{
    if t.len() == 0 {
        assert(insert_def(t, x)[0] == x);
    } else if same_span(t[0], x) {
        assert(insert_def(t, x)[0] == t[0]);
    } else if def_before(x, t[0]) {
        let r = insert_def(t, x);
        assert(r == seq![x] + t);
        assert forall|i: int| 0 <= i < t.len() implies r.contains(#[trigger] t[i]) by {
            assert(r[i + 1] == t[i]);
        }
        assert(r[0] == x);
        assert forall|i: int| 0 <= i < t.len() implies !same_span(#[trigger] t[i], x) by {
            if i > 0 {
                assert(def_before(t[0], t[i]));
            }
        }
    } else {
        let rest = t.drop_first();
        assert forall|i: int, j: int| 0 <= i < j < rest.len() implies def_before(
            #[trigger] rest[i],
            #[trigger] rest[j],
        ) by {
            assert(rest[i] == t[i + 1] && rest[j] == t[j + 1]);
        }
        lemma_insert_def(rest, x);
        let ir = insert_def(rest, x);
        let r = insert_def(t, x);
        assert(r == seq![t[0]] + ir);
        assert forall|i: int| 0 <= i < ir.len() implies def_before(t[0], #[trigger] ir[i]) by {
            if ir[i] != x {
                let k = choose|k: int| 0 <= k < rest.len() && rest[k] == ir[i];
                assert(rest[k] == t[k + 1]);
            }
        }
        assert forall|i: int, j: int| 0 <= i < j < r.len() implies def_before(
            #[trigger] r[i],
            #[trigger] r[j],
        ) by {
            if i == 0 {
                assert(r[j] == ir[j - 1]);
            } else {
                assert(r[i] == ir[i - 1] && r[j] == ir[j - 1]);
            }
        }
        assert forall|i: int| 0 <= i < r.len() implies #[trigger] r[i] == x || t.contains(r[i]) by {
            if i > 0 {
                assert(r[i] == ir[i - 1]);
                if ir[i - 1] != x {
                    let k = choose|k: int| 0 <= k < rest.len() && rest[k] == ir[i - 1];
                    assert(t[k + 1] == rest[k]);
                }
            } else {
                assert(t[0] == r[0]);
            }
        }
        assert forall|i: int| 0 <= i < t.len() implies r.contains(#[trigger] t[i]) by {
            if i == 0 {
                assert(r[0] == t[0]);
            } else {
                assert(rest[i - 1] == t[i]);
                let k = choose|k: int| 0 <= k < ir.len() && ir[k] == rest[i - 1];
                assert(r[k + 1] == ir[k]);
            }
        }
        let k = choose|k: int| 0 <= k < ir.len() && same_span(#[trigger] ir[k], x);
        assert(same_span(r[k + 1], x));
        if exists|i: int| 0 <= i < t.len() && same_span(#[trigger] t[i], x) {
            let i = choose|i: int| 0 <= i < t.len() && same_span(#[trigger] t[i], x);
            assert(i > 0);
            assert(same_span(rest[i - 1], x));
            assert(r =~= t);
        }
        if forall|i: int| 0 <= i < t.len() ==> !same_span(#[trigger] t[i], x) {
            assert forall|i: int| 0 <= i < rest.len() implies !same_span(#[trigger] rest[i], x) by {
                assert(rest[i] == t[i + 1]);
            }
            let m = choose|m: int| 0 <= m < ir.len() && ir[m] == x;
            assert(r[m + 1] == x);
        }
    }
}

/// The ordered definitions are strictly sorted outer before inner, and
/// each is an input definition.
pub proof fn lemma_ordered_sorted(s: Seq<DefView>)
    ensures
        defs_ordered(ordered_defs(s)),
        forall|i: int| 0 <= i < ordered_defs(s).len() ==> s.contains(#[trigger] ordered_defs(s)[i]),
    decreases s.len(),
{
    if s.len() > 0 {
        let p = s.drop_last();
        let x = s.last();
        lemma_ordered_sorted(p);
        let t = ordered_defs(p);
        lemma_insert_def(t, x);
        let r = ordered_defs(s);
        assert forall|i: int| 0 <= i < r.len() implies s.contains(#[trigger] r[i]) by {
            if r[i] == x {
                assert(s[s.len() - 1] == x);
            } else {
                let k = choose|k: int| 0 <= k < t.len() && t[k] == r[i];
                let j = choose|j: int| 0 <= j < p.len() && p[j] == t[k];
                assert(s[j] == p[j]);
            }
        }
    }
}

/// Every span of the input is kept among the ordered definitions.
pub proof fn lemma_ordered_spans(s: Seq<DefView>)
    ensures
        forall|j: int|
            #![trigger s[j]]
            0 <= j < s.len() ==> exists|i: int|
                0 <= i < ordered_defs(s).len() && same_span(#[trigger] ordered_defs(s)[i], s[j]),
    decreases s.len(),
{
    if s.len() > 0 {
        let p = s.drop_last();
        let x = s.last();
        lemma_ordered_spans(p);
        lemma_ordered_sorted(p);
        let t = ordered_defs(p);
        lemma_insert_def(t, x);
        let r = ordered_defs(s);
        assert forall|j: int| #![trigger s[j]] 0 <= j < s.len() implies exists|i: int|
            0 <= i < r.len() && same_span(#[trigger] r[i], s[j]) by {
            if j == s.len() - 1 {
                let i = choose|i: int| 0 <= i < r.len() && same_span(#[trigger] r[i], x);
            } else {
                assert(s[j] == p[j]);
                let i = choose|i: int| 0 <= i < t.len() && same_span(#[trigger] t[i], p[j]);
                let k = choose|k: int| 0 <= k < r.len() && r[k] == t[i];
                assert(same_span(r[k], s[j]));
            }
        }
    }
}

/// `s[j]` is the first definition of `s` with its span.
pub open spec fn first_of_span(s: Seq<DefView>, j: int) -> bool {
    forall|k: int| 0 <= k < j ==> !same_span(#[trigger] s[k], s[j])
}

/// Of the definitions that share a span, the first one captured is the one
/// kept.
#[verifier::rlimit(40)]
pub proof fn lemma_ordered_first(s: Seq<DefView>)
    ensures
        forall|i: int|
            0 <= i < ordered_defs(s).len() ==> exists|j: int|
                0 <= j < s.len() && s[j] == #[trigger] ordered_defs(s)[i] && first_of_span(s, j),
    decreases s.len(),
{
    if s.len() > 0 {
        let p = s.drop_last();
        let x = s.last();
        lemma_ordered_first(p);
        lemma_ordered_sorted(p);
        lemma_ordered_spans(p);
        let t = ordered_defs(p);
        lemma_insert_def(t, x);
        let r = ordered_defs(s);
        assert forall|i: int| 0 <= i < r.len() implies exists|j: int|
            0 <= j < s.len() && s[j] == #[trigger] r[i] && first_of_span(s, j) by {
            if t.contains(r[i]) {
                let m = choose|m: int| 0 <= m < t.len() && t[m] == r[i];
                let j = choose|j: int| 0 <= j < p.len() && p[j] == t[m] && first_of_span(p, j);
                assert(s[j] == p[j]);
                assert forall|k: int| 0 <= k < j implies !same_span(#[trigger] s[k], s[j]) by {
                    assert(s[k] == p[k]);
                }
            } else {
                assert(r[i] == x);
                assert forall|k: int| 0 <= k < s.len() - 1 implies !same_span(
                    #[trigger] s[k],
                    s[s.len() - 1],
                ) by {
                    if same_span(s[k], x) {
                        assert(s[k] == p[k]);
                        let m = choose|m: int| 0 <= m < t.len() && same_span(#[trigger] t[m], p[k]);
                        assert(same_span(t[m], x));
                        assert(r == t);
                        assert(t.contains(r[i]));
                    }
                }
                assert(s[s.len() - 1] == r[i]);
            }
        }
    }
}

} // verus!
