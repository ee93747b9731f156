//! The tree-sitter objects the library works with, each paired with what
//! it is: a grammar with its language, a compiled query with its language
//! and text, a parser with the language it was given, a syntax tree with
//! the language and text it was parsed from, a node with where it sits in
//! its tree, and a run of a query with how many matches were taken.
//!
//! Only the trusted calls of this module make these values, each with its
//! view set to what the call produced; nothing else writes their fields.
//! What tree-sitter computes is a function of the grammar, the query text
//! and the source text, and is named here over those views.
use vstd::prelude::*;
use vstd::string::StringSliceAdditionalSpecFns;
use streaming_iterator::StreamingIterator;
use tree_sitter::Language as GrammarHandle;
use tree_sitter::{LanguageError, Node, Parser, Query, QueryCursor, QueryError, QueryMatches, Tree};
use crate::language::Language;

verus! {

#[verifier::external_type_specification]
#[verifier::external_body]
pub struct ExGrammarHandle(GrammarHandle);

#[verifier::external_type_specification]
#[verifier::external_body]
pub struct ExQuery(Query);

#[verifier::external_type_specification]
#[verifier::external_body]
pub struct ExParser(Parser);

#[verifier::external_type_specification]
#[verifier::external_body]
pub struct ExTree(Tree);

#[verifier::external_type_specification]
#[verifier::external_body]
pub struct ExNode<'tree>(Node<'tree>);

#[verifier::external_type_specification]
#[verifier::external_body]
pub struct ExQueryCursor(QueryCursor);

/// The matches of a query over a syntax tree, yielded one at a time.
#[verifier::external_body]
pub struct MatchStream<'q, 't, 's> {
    matches: QueryMatches<'q, 't, &'s [u8], &'s [u8]>,
}

/// The syntax tree of a text parsed with a language's grammar.
pub struct TreeSite {
    pub language: Language,
    pub source: Seq<u8>,
}

/// Where a node sits in a syntax tree.
pub enum NodeAt {
    Root,
    /// Capture `c` of match `m` of the query with text `q`.
    Capture(Seq<char>, nat, nat),
    Parent(Box<NodeAt>),
    PrevSibling(Box<NodeAt>),
}

/// A node: the tree it belongs to and where it sits in it.
pub struct NodeView {
    pub tree: TreeSite,
    pub at: NodeAt,
}

pub open spec fn parent_view(n: NodeView) -> NodeView {
    NodeView { tree: n.tree, at: NodeAt::Parent(Box::new(n.at)) }
}

pub open spec fn prev_view(n: NodeView) -> NodeView {
    NodeView { tree: n.tree, at: NodeAt::PrevSibling(Box::new(n.at)) }
}

/// Capture `c` of match `m` of the query with text `q` over `tree`.
pub open spec fn capture_view(tree: TreeSite, q: Seq<char>, m: nat, c: nat) -> NodeView {
    NodeView { tree, at: NodeAt::Capture(q, m, c) }
}

/// Whether `Parser::set_language` accepts the grammar of `language` (it
/// compares the grammar's ABI version with the runtime's).
pub uninterp spec fn grammar_accepted(language: Language) -> bool;

/// Whether `tree_sitter::Query::new` compiles the query text `query` for
/// the grammar of `language`.
pub uninterp spec fn query_compiles(language: Language, query: Seq<char>) -> bool;

/// `Query::capture_index_for_name` of the query with text `query` compiled
/// for `language`.
pub uninterp spec fn capture_index_of(language: Language, query: Seq<char>, name: Seq<char>) -> Option<u32>;

/// The matches of the query with text `query` over the whole tree, in the
/// order tree-sitter yields them, each as the capture indices of its
/// captures.
pub uninterp spec fn query_matches(tree: TreeSite, query: Seq<char>) -> Seq<Seq<u32>>;

/// `Node::kind`.
pub uninterp spec fn node_kind_at(n: NodeView) -> Seq<char>;

/// `Node::start_byte`.
pub uninterp spec fn node_start_byte_at(n: NodeView) -> nat;

/// `Node::end_byte`.
pub uninterp spec fn node_end_byte_at(n: NodeView) -> nat;

/// `Node::start_position`, as `(row, column)`.
pub uninterp spec fn node_start_point_at(n: NodeView) -> (nat, nat);

/// `Node::end_position`, as `(row, column)`.
pub uninterp spec fn node_end_point_at(n: NodeView) -> (nat, nat);

/// Whether `Node::parent` gives a node.
pub uninterp spec fn node_has_parent(n: NodeView) -> bool;

/// Whether `Node::prev_sibling` gives a node.
pub uninterp spec fn node_has_prev_sibling(n: NodeView) -> bool;

/// A language's grammar in the form tree-sitter's runtime API takes, with
/// the language it is the grammar of.
pub struct Grammar {
    handle: GrammarHandle,
    language: Ghost<Language>,
}

impl View for Grammar {
    type V = Language;

    closed spec fn view(&self) -> Language {
        self.language@
    }
}

/// A compiled chunk query, with the language and the query text it was
/// compiled from.
pub struct ChunkQuery {
    query: Query,
    language: Ghost<Language>,
    text: Ghost<Seq<char>>,
}

impl View for ChunkQuery {
    type V = (Language, Seq<char>);

    closed spec fn view(&self) -> (Language, Seq<char>) {
        (self.language@, self.text@)
    }
}

impl ChunkQuery {
    /// The compiled tree-sitter query.
    pub fn compiled(&self) -> &Query {
        &self.query
    }
}

/// A parser, with the language whose grammar it has (`None` before it is
/// given one).
pub struct ChunkParser {
    parser: Parser,
    grammar: Ghost<Option<Language>>,
}

impl View for ChunkParser {
    type V = Option<Language>;

    closed spec fn view(&self) -> Option<Language> {
        self.grammar@
    }
}

impl ChunkParser {
    /// A parser without a language.
    pub fn new() -> (res: Self)
        ensures
            res@ is None,
    {
        new_parser()
    }
}

/// A syntax tree, with the language and text it was parsed from.
pub struct SyntaxTree {
    tree: Tree,
    site: Ghost<TreeSite>,
}

impl View for SyntaxTree {
    type V = TreeSite;

    closed spec fn view(&self) -> TreeSite {
        self.site@
    }
}

/// A node of a syntax tree, with where it sits.
#[derive(Clone, Copy)]
pub struct SyntaxNode<'t> {
    node: Node<'t>,
    at: Ghost<NodeView>,
}

impl<'t> View for SyntaxNode<'t> {
    type V = NodeView;

    closed spec fn view(&self) -> NodeView {
        self.at@
    }
}

/// The matches of a query run over a tree, with how many were taken.
pub struct MatchRun<'q, 't, 's> {
    stream: MatchStream<'q, 't, 's>,
    tree: Ghost<TreeSite>,
    query: Ghost<Seq<char>>,
    taken: Ghost<nat>,
}

impl<'q, 't, 's> View for MatchRun<'q, 't, 's> {
    type V = (TreeSite, Seq<char>, nat);

    closed spec fn view(&self) -> (TreeSite, Seq<char>, nat) {
        (self.tree@, self.query@, self.taken@)
    }
}

/// `cs` are the captures of match `m` of the query with text `q` over
/// `tree`: their indices, and nodes that are those captures.
pub open spec fn are_captures<'t>(cs: Seq<(u32, SyntaxNode<'t>)>, tree: TreeSite, q: Seq<char>, m: nat) -> bool {
    &&& m < query_matches(tree, q).len()
    &&& cs.len() == query_matches(tree, q)[m as int].len()
    &&& forall|j: int|
        0 <= j < cs.len() ==> (#[trigger] cs[j]).0 == query_matches(tree, q)[m as int][j] && cs[j].1@
            == capture_view(tree, q, m, j as nat)
}

/// `tree_sitter_typescript::LANGUAGE_TYPESCRIPT` as a `tree_sitter::Language`:
/// the TypeScript grammar.
#[verifier::external_body]
pub(crate) fn typescript_grammar() -> (res: Grammar)
    ensures
        res@ == Language::TypeScript,
{
    Grammar { handle: tree_sitter_typescript::LANGUAGE_TYPESCRIPT.into(), language: Ghost(Language::TypeScript) }
}

/// `tree_sitter_typescript::LANGUAGE_TSX` as a `tree_sitter::Language`: the
/// TSX grammar.
#[verifier::external_body]
pub(crate) fn tsx_grammar() -> (res: Grammar)
    ensures
        res@ == Language::Tsx,
{
    Grammar { handle: tree_sitter_typescript::LANGUAGE_TSX.into(), language: Ghost(Language::Tsx) }
}

/// `tree_sitter::Query::new`: compile a query for a grammar. Whether it
/// compiles depends on the grammar and the query text alone.
#[verifier::external_body]
pub(crate) fn compile_query(grammar: &Grammar, source: &str) -> (res: Result<ChunkQuery, QueryError>)
    ensures
        res is Ok == query_compiles(grammar@, source@),
        res matches Ok(q) ==> q@ == (grammar@, source@),
{
    let q = Query::new(&grammar.handle, source)?;
    Ok(ChunkQuery { query: q, language: Ghost(grammar@), text: Ghost(source@) })
}

/// `tree_sitter::Parser::new`: a parser without a language.
#[verifier::external_body]
fn new_parser() -> (res: ChunkParser)
    ensures
        res@ is None,
{
    ChunkParser { parser: Parser::new(), grammar: Ghost(None) }
}

/// `tree_sitter::Parser::set_language`: succeeds exactly when the grammar's
/// ABI version is one the runtime supports, and then the parser has that
/// grammar; on failure the parser keeps its language.
#[verifier::external_body]
pub(crate) fn set_parser_language(parser: &mut ChunkParser, grammar: &Grammar) -> (res: Result<(), LanguageError>)
    ensures
        res is Ok == grammar_accepted(grammar@),
        res is Ok ==> final(parser)@ == Some(grammar@),
        res is Err ==> final(parser)@ == old(parser)@,
{
    parser.parser.set_language(&grammar.handle)?;
    parser.grammar = Ghost(Some(grammar@));
    Ok(())
}

/// `tree_sitter::Parser::parse` of a whole text, without an old tree. It
/// gives a tree exactly when the parser has a language: no timeout or
/// cancellation flag is ever set on it.
#[verifier::external_body]
pub(crate) fn parse_text(parser: &mut ChunkParser, source: &str) -> (res: Option<SyntaxTree>)
    ensures
        final(parser)@ == old(parser)@,
        res is Some == old(parser)@ is Some,
        res matches Some(t) ==> t@ == (TreeSite { language: old(parser)@.unwrap(), source: source.spec_bytes() }),
{
    let site = Ghost(TreeSite { language: parser@.unwrap(), source: source.spec_bytes() });
    parser.parser.parse(source, None).map(|tree| SyntaxTree { tree, site })
}

/// `tree_sitter::Tree::root_node`.
#[verifier::external_body]
pub(crate) fn root_node<'t>(tree: &'t SyntaxTree) -> (res: SyntaxNode<'t>)
    ensures
        res@ == (NodeView { tree: tree@, at: NodeAt::Root }),
{
    SyntaxNode { node: tree.tree.root_node(), at: Ghost(NodeView { tree: tree@, at: NodeAt::Root }) }
}

/// `tree_sitter::Query::capture_index_for_name`: the index of a capture
/// name of the query, if it has one.
#[verifier::external_body]
pub(crate) fn capture_index(query: &ChunkQuery, name: &str) -> (res: Option<u32>)
    ensures
        res == capture_index_of(query@.0, query@.1, name@),
{
    query.query.capture_index_for_name(name)
}

/// `tree_sitter::QueryCursor::new`. No limit or range is ever set on a
/// cursor.
#[verifier::external_body]
pub(crate) fn new_cursor() -> QueryCursor {
    QueryCursor::new()
}

/// `tree_sitter::QueryCursor::matches` of a query over the root of a tree
/// of the query's language, with the tree's text as text provider.
#[verifier::external_body]
pub(crate) fn run_query<'q, 't: 'q, 's>(
    cursor: &'q mut QueryCursor,
    query: &'q ChunkQuery,
    root: &SyntaxNode<'t>,
    text: &'s [u8],
) -> (res: MatchRun<'q, 't, 's>)
    requires
        root@.at == NodeAt::Root,
        text@ == root@.tree.source,
        query@.0 == root@.tree.language,
    ensures
        res@ == (root@.tree, query@.1, 0nat),
{
    let stream = MatchStream { matches: cursor.matches(&query.query, root.node, text) };
    MatchRun { stream, tree: Ghost(root@.tree), query: Ghost(query@.1), taken: Ghost(0) }
}

/// `StreamingIterator::next` of the matches: the next match, as the list
/// of its captures, `(capture index, captured node)`, while any is left.
#[verifier::external_body]
pub(crate) fn next_match<'q, 't: 'q, 's>(run: &mut MatchRun<'q, 't, 's>) -> (res: Option<Vec<(u32, SyntaxNode<'t>)>>)
    requires
        old(run)@.2 <= query_matches(old(run)@.0, old(run)@.1).len(),
    ensures
        final(run)@.0 == old(run)@.0 && final(run)@.1 == old(run)@.1,
        res is Some == (old(run)@.2 < query_matches(old(run)@.0, old(run)@.1).len()),
        final(run)@.2 == (if res is Some { old(run)@.2 + 1 } else { old(run)@.2 }),
        res matches Some(cs) ==> are_captures(cs@, old(run)@.0, old(run)@.1, old(run)@.2),
{
    let (tree, query, m) = (run.tree, run.query, run.taken);
    let cs: Vec<_> = run.stream.matches.next()?.captures.iter().enumerate().map(
        |(j, c)| (c.index, SyntaxNode { node: c.node, at: Ghost(capture_view(tree@, query@, m@, j as nat)) }),
    ).collect();
    run.taken = Ghost(m@ + 1);
    Some(cs)
}

/// `tree_sitter::Node::kind`.
#[verifier::external_body]
pub(crate) fn node_kind(node: &SyntaxNode) -> (res: &'static str)
    ensures
        res@ == node_kind_at(node@),
{
    node.node.kind()
}

/// `tree_sitter::Node::parent`.
#[verifier::external_body]
pub(crate) fn node_parent<'t>(node: &SyntaxNode<'t>) -> (res: Option<SyntaxNode<'t>>)
    ensures
        res is Some == node_has_parent(node@),
        res matches Some(p) ==> p@ == parent_view(node@),
{
    node.node.parent().map(|p| SyntaxNode { node: p, at: Ghost(parent_view(node@)) })
}

/// `tree_sitter::Node::prev_sibling`.
#[verifier::external_body]
pub(crate) fn node_prev_sibling<'t>(node: &SyntaxNode<'t>) -> (res: Option<SyntaxNode<'t>>)
    ensures
        res is Some == node_has_prev_sibling(node@),
        res matches Some(p) ==> p@ == prev_view(node@),
{
    node.node.prev_sibling().map(|p| SyntaxNode { node: p, at: Ghost(prev_view(node@)) })
}

/// `tree_sitter::Node::start_byte`.
#[verifier::external_body]
pub(crate) fn node_start_byte(node: &SyntaxNode) -> (res: usize)
    ensures
        res == node_start_byte_at(node@),
{
    node.node.start_byte()
}

/// `tree_sitter::Node::end_byte`.
#[verifier::external_body]
pub(crate) fn node_end_byte(node: &SyntaxNode) -> (res: usize)
    ensures
        res == node_end_byte_at(node@),
{
    node.node.end_byte()
}

/// `tree_sitter::Node::start_position` as `(row, column)`, both 0-based;
/// tree-sitter keeps them as `u32`.
#[verifier::external_body]
pub(crate) fn node_start_position(node: &SyntaxNode) -> (res: (usize, usize))
    ensures
        res.0 == node_start_point_at(node@).0,
        res.1 == node_start_point_at(node@).1,
        res.0 <= u32::MAX,
        res.1 <= u32::MAX,
{
    let p = node.node.start_position();
    (p.row, p.column)
}

/// `tree_sitter::Node::end_position` as `(row, column)`, both 0-based;
/// tree-sitter keeps them as `u32`.
#[verifier::external_body]
pub(crate) fn node_end_position(node: &SyntaxNode) -> (res: (usize, usize))
    ensures
        res.0 == node_end_point_at(node@).0,
        res.1 == node_end_point_at(node@).1,
        res.0 <= u32::MAX,
        res.1 <= u32::MAX,
{
    let p = node.node.end_position();
    (p.row, p.column)
}

} // verus!
