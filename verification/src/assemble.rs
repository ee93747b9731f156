//! Assembly of a file's chunks from its captured definitions: nesting,
//! class splitting, module chunks for uncovered code, and the final order.
use vstd::prelude::*;
use vstd::string::StringSliceAdditionalSpecFns;
use vstd::string::StringExecFns;
use crate::language::Language;
use crate::chunk::{
    Chunk, ChunkKind, ChunkView, MAX_CHUNK_LINES, chunk_views, name_view, push_split,
    split_views, windows, chunk_at, lemma_windows, lemma_windows_cover,
};
use crate::lines::{LineIndex, line_blank, line_count, span_text};
use crate::syntax::{def_before, defs_ordered};

verus! {

/// A captured definition, before assembly into chunks.
#[derive(Debug)]
pub struct Def {
    pub start_byte: usize,
    pub end_byte: usize,
    /// 1-based, inclusive.
    pub start_line: usize,
    /// 1-based, inclusive.
    pub end_line: usize,
    pub kind: ChunkKind,
    pub name: String,
}

pub struct DefView {
    pub start_byte: int,
    pub end_byte: int,
    pub start_line: int,
    pub end_line: int,
    pub kind: ChunkKind,
    pub name: Seq<char>,
}

impl View for Def {
    type V = DefView;

    open spec fn view(&self) -> DefView {
        DefView {
            start_byte: self.start_byte as int,
            end_byte: self.end_byte as int,
            start_line: self.start_line as int,
            end_line: self.end_line as int,
            kind: self.kind,
            name: self.name@,
        }
    }
}

pub open spec fn def_views(v: Seq<Def>) -> Seq<DefView> {
    v.map_values(|d: Def| d@)
}

/// `a`'s byte span contains `d`'s.
pub open spec fn spans_contain(a: DefView, d: DefView) -> bool {
    a.start_byte <= d.start_byte && d.end_byte <= a.end_byte
}

impl Def {
    pub fn contains(&self, other: &Def) -> (res: bool)
        ensures
            res == spans_contain(self@, other@),
    {
        self.start_byte <= other.start_byte && other.end_byte <= self.end_byte
    }

    pub fn line_count(&self) -> (res: usize)
        requires
            1 <= self.start_line <= self.end_line,
        ensures
            res == self.end_line - self.start_line + 1,
    {
        self.end_line - self.start_line + 1
    }

    pub fn duplicate(&self) -> (res: Def)
        ensures
            res@ == self@,
    {
        Def {
            start_byte: self.start_byte,
            end_byte: self.end_byte,
            start_line: self.start_line,
            end_line: self.end_line,
            kind: self.kind,
            name: self.name.clone(),
        }
    }
}

/// Every definition spans existing lines, first line no later than last.
pub open spec fn defs_fit(defs: Seq<DefView>, count: int) -> bool {
    forall|i: int|
        0 <= i < defs.len() ==> 1 <= (#[trigger] defs[i]).start_line <= defs[i].end_line <= count
}

/// A top-level definition plus the nested definitions that are kept
/// (methods directly inside a class).
pub struct TreeView {
    pub def: DefView,
    pub children: Seq<DefView>,
}

/// Nesting of definitions taken in order: a definition inside the span of
/// the last top-level one is dropped, or kept as a child when that top-level
/// definition is a class and it does not lie inside the last kept child;
/// any other definition starts a new top-level entry.
pub open spec fn nest(defs: Seq<DefView>) -> Seq<TreeView>
    decreases defs.len(),
{
    if defs.len() == 0 {
        seq![]
    } else {
        let t = nest(defs.drop_last());
        let d = defs.last();
        if t.len() > 0 && spans_contain(t.last().def, d) {
            let top = t.last();
            if top.def.kind == ChunkKind::Class && !(top.children.len() > 0 && spans_contain(
                top.children.last(),
                d,
            )) {
                t.update(t.len() - 1, TreeView { def: top.def, children: top.children.push(d) })
            } else {
                t
            }
        } else {
            t.push(TreeView { def: d, children: seq![] })
        }
    }
}

struct DefTree {
    def: Def,
    children: Vec<Def>,
}

impl View for DefTree {
    type V = TreeView;

    closed spec fn view(&self) -> TreeView {
        TreeView { def: self.def@, children: def_views(self.children@) }
    }
}

spec fn tree_views(v: Seq<DefTree>) -> Seq<TreeView> {
    v.map_values(|t: DefTree| t@)
}

/// Every entry of the nesting comes from the input: entries and children
/// are input definitions.
pub proof fn lemma_nest_from_input(defs: Seq<DefView>)
    ensures
        forall|i: int|
            0 <= i < nest(defs).len() ==> defs.contains(#[trigger] nest(defs)[i].def) && (forall|
                j: int,
            | 0 <= j < nest(defs)[i].children.len() ==> defs.contains(
                #[trigger] nest(defs)[i].children[j],
            )),
    decreases defs.len(),
{
    if defs.len() > 0 {
        let p = defs.drop_last();
        lemma_nest_from_input(p);
        let t = nest(p);
        assert forall|x: DefView| p.contains(x) implies defs.contains(x) by {
            let k = choose|k: int| 0 <= k < p.len() && p[k] == x;
            assert(defs[k] == x);
        }
        assert(defs[defs.len() - 1] == defs.last());
    }
}

fn build_tree(defs: &Vec<Def>) -> (tree: Vec<DefTree>)
    ensures
        tree_views(tree@) == nest(def_views(defs@)),
{
    let ghost dv = def_views(defs@);
    let mut tree: Vec<DefTree> = Vec::new();
    let mut i: usize = 0;
    while i < defs.len()
        invariant
            dv == def_views(defs@),
            i <= defs@.len(),
            tree_views(tree@) == nest(dv.take(i as int)),
        decreases defs@.len() - i,
    {
        let d = defs[i].duplicate();
        let ghost prefix = dv.take(i as int);
        assert(dv.take(i + 1).drop_last() == prefix);
        assert(dv.take(i + 1).last() == d@);
        let n = tree.len();
        if n > 0 && tree[n - 1].def.contains(&d) {
            let m = tree[n - 1].children.len();
            let keep = tree[n - 1].def.kind == ChunkKind::Class && !(m > 0
                && tree[n - 1].children[m - 1].contains(&d));
            if keep {
                let mut top = tree.pop().unwrap();
                let ghost before = top@;
                top.children.push(d);
                assert(def_views(top.children@) =~= before.children.push(d@));
                tree.push(top);
                assert(tree_views(tree@) =~= nest(dv.take(i + 1)));
            } else {
                assert(tree_views(tree@) =~= nest(dv.take(i + 1)));
            }
        } else {
            let ghost before = tree@;
            tree.push(DefTree { def: d, children: Vec::new() });
            assert(def_views(Seq::<Def>::empty()) =~= Seq::<DefView>::empty());
            assert(tree_views(tree@) =~= tree_views(before).push(TreeView { def: d@, children: seq![] }));
        }
        i = i + 1;
    }
    assert(dv.take(defs@.len() as int) =~= dv);
    tree
}

/// Name of a method chunk of a split class: `Class.method`.
pub open spec fn qualified(parent: Seq<char>, child: Seq<char>) -> Seq<char> {
    parent + "."@ + child
}

/// Chunks of the kept children of a split class, in order.
pub open spec fn children_chunks(
    path: Seq<char>,
    language: Language,
    b: Seq<u8>,
    parent: Seq<char>,
    cs: Seq<DefView>,
) -> Seq<ChunkView>
    decreases cs.len(),
{
    if cs.len() == 0 {
        seq![]
    } else {
        let c = cs.last();
        children_chunks(path, language, b, parent, cs.drop_last()) + split_views(
            path,
            language,
            b,
            c.kind,
            Some(qualified(parent, c.name)),
            c.start_line,
            c.end_line,
        )
    }
}

/// A class longer than `MAX_CHUNK_LINES` with kept methods is split.
pub open spec fn splits_class(t: TreeView) -> bool {
    &&& t.def.kind == ChunkKind::Class
    &&& t.children.len() > 0
    &&& t.def.end_line - t.def.start_line + 1 > MAX_CHUNK_LINES
}

/// Last line of a split class's header: the line before its first method.
pub open spec fn header_end(t: TreeView) -> int {
    if t.children[0].start_line >= 1 {
        t.children[0].start_line - 1
    } else {
        0
    }
}

/// Chunks of one top-level definition: a split class gives its header (if
/// any line is left for it) and one chunk per method; anything else gives
/// the chunks of its whole span.
pub open spec fn tree_chunks(path: Seq<char>, language: Language, b: Seq<u8>, t: TreeView) -> Seq<
    ChunkView,
> {
    if splits_class(t) {
        (if header_end(t) >= t.def.start_line {
            split_views(
                path,
                language,
                b,
                ChunkKind::Class,
                Some(t.def.name),
                t.def.start_line,
                header_end(t),
            )
        } else {
            seq![]
        }) + children_chunks(path, language, b, t.def.name, t.children)
    } else {
        split_views(path, language, b, t.def.kind, Some(t.def.name), t.def.start_line, t.def.end_line)
    }
}

/// Chunks of all top-level definitions, in order.
pub open spec fn def_chunks(path: Seq<char>, language: Language, b: Seq<u8>, ts: Seq<TreeView>) -> Seq<
    ChunkView,
>
    decreases ts.len(),
{
    if ts.len() == 0 {
        seq![]
    } else {
        def_chunks(path, language, b, ts.drop_last()) + tree_chunks(path, language, b, ts.last())
    }
}

/// Every definition of the nesting, top-level or child, fits the file.
pub open spec fn trees_fit(ts: Seq<TreeView>, count: int) -> bool {
    forall|i: int|
        0 <= i < ts.len() ==> {
            &&& 1 <= (#[trigger] ts[i]).def.start_line <= ts[i].def.end_line <= count
            &&& defs_fit(ts[i].children, count)
        }
}

pub proof fn lemma_nest_fits(defs: Seq<DefView>, count: int)
    requires
        defs_fit(defs, count),
    ensures
        trees_fit(nest(defs), count),
{
    lemma_nest_from_input(defs);
    let t = nest(defs);
    assert forall|i: int| 0 <= i < t.len() implies {
        &&& 1 <= (#[trigger] t[i]).def.start_line <= t[i].def.end_line <= count
        &&& defs_fit(t[i].children, count)
    } by {
        let k = choose|k: int| 0 <= k < defs.len() && defs[k] == t[i].def;
        assert forall|j: int| 0 <= j < t[i].children.len() implies 1 <= (
        #[trigger] t[i].children[j]).start_line <= t[i].children[j].end_line <= count by {
            let m = choose|m: int| 0 <= m < defs.len() && defs[m] == t[i].children[j];
        }
    }
}

fn push_tree_chunks(
    chunks: &mut Vec<Chunk>,
    rel_path: &str,
    language: Language,
    source: &str,
    lines: &LineIndex,
    tree: &DefTree,
)
    requires
        lines.indexes(source.spec_bytes()),
        trees_fit(seq![tree@], line_count(source.spec_bytes())),
    ensures
        chunk_views(final(chunks)@) == chunk_views(old(chunks)@) + tree_chunks(
            rel_path@,
            language,
            source.spec_bytes(),
            tree@,
        ),
{
    let ghost b = source.spec_bytes();
    let ghost t = tree@;
    assert(seq![t][0] == t);
    let def = &tree.def;
    let split_class = def.kind == ChunkKind::Class && tree.children.len() > 0 && def.line_count()
        > MAX_CHUNK_LINES;
    if split_class {
        // Header: class declaration and fields, up to the first method.
        assert(t.children[0] == tree.children@[0]@);
        assert(1 <= t.children[0].start_line);
        let header_end = tree.children[0].start_line - 1;
        if header_end >= def.start_line {
            push_split(
                chunks,
                rel_path,
                language,
                source,
                lines,
                ChunkKind::Class,
                Some(def.name.clone()),
                def.start_line,
                header_end,
            );
        }
        let ghost after_header = chunk_views(chunks@);
        let mut k: usize = 0;
        while k < tree.children.len()
            invariant
                lines.indexes(b),
                b == source.spec_bytes(),
                t == tree@,
                defs_fit(t.children, line_count(b)),
                k <= tree.children@.len(),
                chunk_views(chunks@) == after_header + children_chunks(
                    rel_path@,
                    language,
                    b,
                    t.def.name,
                    t.children.take(k as int),
                ),
            decreases tree.children@.len() - k,
        {
            let child = &tree.children[k];
            assert(t.children[k as int] == child@);
            assert(t.children.take(k + 1).drop_last() == t.children.take(k as int));
            assert(t.children.take(k + 1).last() == child@);
            let mut name = tree.def.name.clone();
            name.append(".");
            name.append(child.name.as_str());
            push_split(
                chunks,
                rel_path,
                language,
                source,
                lines,
                child.kind,
                Some(name),
                child.start_line,
                child.end_line,
            );
            k = k + 1;
        }
        assert(t.children.take(t.children.len() as int) == t.children);
    } else {
        push_split(
            chunks,
            rel_path,
            language,
            source,
            lines,
            def.kind,
            Some(def.name.clone()),
            def.start_line,
            def.end_line,
        );
    }
}

fn push_def_chunks(
    chunks: &mut Vec<Chunk>,
    rel_path: &str,
    language: Language,
    source: &str,
    lines: &LineIndex,
    tree: &Vec<DefTree>,
)
    requires
        lines.indexes(source.spec_bytes()),
        trees_fit(tree_views(tree@), line_count(source.spec_bytes())),
    ensures
        chunk_views(final(chunks)@) == chunk_views(old(chunks)@) + def_chunks(
            rel_path@,
            language,
            source.spec_bytes(),
            tree_views(tree@),
        ),
{
    let ghost b = source.spec_bytes();
    let ghost ts = tree_views(tree@);
    let ghost start = chunk_views(chunks@);
    let mut j: usize = 0;
    while j < tree.len()
        invariant
            lines.indexes(b),
            b == source.spec_bytes(),
            ts == tree_views(tree@),
            trees_fit(ts, line_count(b)),
            j <= tree@.len(),
            chunk_views(chunks@) == start + def_chunks(rel_path@, language, b, ts.take(j as int)),
        decreases tree@.len() - j,
    {
        assert(ts[j as int] == tree@[j as int]@);
        assert(trees_fit(seq![tree@[j as int]@], line_count(b))) by {
            assert(seq![tree@[j as int]@][0] == ts[j as int]);
        }
        assert(ts.take(j + 1).drop_last() == ts.take(j as int));
        assert(ts.take(j + 1).last() == ts[j as int]);
        push_tree_chunks(chunks, rel_path, language, source, lines, &tree[j]);
        j = j + 1;
    }
    assert(ts.take(ts.len() as int) == ts);
}

/// Line `l` lies in the span of a top-level definition.
pub open spec fn is_covered(ts: Seq<TreeView>, l: int) -> bool {
    exists|i: int| 0 <= i < ts.len() && (#[trigger] ts[i]).def.start_line <= l <= ts[i].def.end_line
}

/// The maximal runs of uncovered lines among `l..=count`, given the start
/// of the run that is open at `l`, if any.
pub open spec fn gap_runs(ts: Seq<TreeView>, count: int, l: int, open: Option<int>) -> Seq<(int, int)>
    decreases count + 1 - l,
{
    if l > count {
        match open {
            Some(s) => seq![(s, count)],
            None => seq![],
        }
    } else if is_covered(ts, l) {
        match open {
            Some(s) => seq![(s, l - 1)] + gap_runs(ts, count, l + 1, None),
            None => gap_runs(ts, count, l + 1, None),
        }
    } else {
        gap_runs(
            ts,
            count,
            l + 1,
            match open {
                Some(s) => Some(s),
                None => Some(l),
            },
        )
    }
}

/// First line of `start..=end` that is not blank (`end + 1` if none).
pub open spec fn trim_start(b: Seq<u8>, start: int, end: int) -> int
    decreases end - start + 1,
{
    if start <= end && line_blank(b, start) {
        trim_start(b, start + 1, end)
    } else {
        start
    }
}

/// Last line of `start..=end` that is not blank (`start - 1` if none).
pub open spec fn trim_end(b: Seq<u8>, start: int, end: int) -> int
    decreases end - start + 1,
{
    if end >= start && line_blank(b, end) {
        trim_end(b, start, end - 1)
    } else {
        end
    }
}

/// Module chunks of one run of uncovered lines: the run trimmed of blank
/// lines at both edges, nothing if it is all blank.
pub open spec fn gap_chunks(path: Seq<char>, language: Language, b: Seq<u8>, gap: (int, int)) -> Seq<
    ChunkView,
> {
    let s = trim_start(b, gap.0, gap.1);
    let e = trim_end(b, s, gap.1);
    if s > e {
        seq![]
    } else {
        split_views(path, language, b, ChunkKind::Module, None, s, e)
    }
}

/// Module chunks of a sequence of runs, in order.
pub open spec fn module_chunks(path: Seq<char>, language: Language, b: Seq<u8>, gaps: Seq<(int, int)>) -> Seq<
    ChunkView,
>
    decreases gaps.len(),
{
    if gaps.len() == 0 {
        seq![]
    } else {
        gap_chunks(path, language, b, gaps[0]) + module_chunks(path, language, b, gaps.drop_first())
    }
}

proof fn lemma_trim_start_bounds(b: Seq<u8>, start: int, end: int)
    requires
        start <= end + 1,
    ensures
        start <= trim_start(b, start, end) <= end + 1,
        forall|l: int| start <= l < trim_start(b, start, end) ==> line_blank(b, l),
        trim_start(b, start, end) <= end ==> !line_blank(b, trim_start(b, start, end)),
    decreases end - start + 1,
{
    if start <= end && line_blank(b, start) {
        lemma_trim_start_bounds(b, start + 1, end);
    }
}

proof fn lemma_trim_end_bounds(b: Seq<u8>, start: int, end: int)
    requires
        start <= end + 1,
    ensures
        start - 1 <= trim_end(b, start, end) <= end,
        forall|l: int| trim_end(b, start, end) < l <= end ==> line_blank(b, l),
        trim_end(b, start, end) >= start ==> !line_blank(b, trim_end(b, start, end)),
    decreases end - start + 1,
{
    if end >= start && line_blank(b, end) {
        lemma_trim_end_bounds(b, start, end - 1);
    }
}

/// A run of uncovered lines is trimmed of its blank edges: it gives no
/// module chunk exactly when all of its lines are blank; otherwise its
/// module chunks start and end on lines that are not blank, and the lines
/// of the run before the first one and after the last one are blank.
pub proof fn lemma_gap_trimmed(path: Seq<char>, language: Language, b: Seq<u8>, gap: (int, int))
    requires
        gap.0 <= gap.1 + 1,
    ensures
        ({
            let gc = gap_chunks(path, language, b, gap);
            &&& (gc.len() == 0) == (forall|l: int| gap.0 <= l <= gap.1 ==> line_blank(b, l))
            &&& gc.len() > 0 ==> {
                &&& !line_blank(b, gc[0].start_line)
                &&& !line_blank(b, gc.last().end_line)
                &&& forall|l: int| gap.0 <= l < gc[0].start_line ==> line_blank(b, l)
                &&& forall|l: int| gc.last().end_line < l <= gap.1 ==> line_blank(b, l)
            }
        }),
{
    let st = trim_start(b, gap.0, gap.1);
    lemma_trim_start_bounds(b, gap.0, gap.1);
    let gc = gap_chunks(path, language, b, gap);
    if st <= gap.1 {
        let e = trim_end(b, st, gap.1);
        lemma_trim_end_bounds(b, st, gap.1);
        assert(e >= st) by {
            if e < st {
                assert(line_blank(b, st));
            }
        }
        lemma_windows(st, e);
        let w = windows(st, e);
        assert(gc == split_views(path, language, b, ChunkKind::Module, None, st, e));
        assert(gc.len() == w.len());
        assert(gc[0].start_line == w[0].0);
        assert(gc.last() == gc[w.len() - 1]);
        assert(gc.last().end_line == w.last().1);
        assert(!line_blank(b, st));
    } else {
        assert(gc.len() == 0);
    }
}

/// Emit a gap as module chunk(s), trimmed of blank edge lines; skipped
/// entirely if blank.
pub fn push_module_gap(
    chunks: &mut Vec<Chunk>,
    rel_path: &str,
    language: Language,
    source: &str,
    lines: &LineIndex,
    start: usize,
    end: usize,
)
    requires
        lines.indexes(source.spec_bytes()),
        1 <= start,
        end <= line_count(source.spec_bytes()),
    ensures
        chunk_views(final(chunks)@) == chunk_views(old(chunks)@) + gap_chunks(
            rel_path@,
            language,
            source.spec_bytes(),
            (start as int, end as int),
        ),
{
    let ghost b = source.spec_bytes();
    if start > end {
        assert(chunk_views(chunks@) =~= chunk_views(chunks@) + gap_chunks(
            rel_path@,
            language,
            b,
            (start as int, end as int),
        ));
        return ;
    }
    let mut s = start;
    while s < end && lines.is_blank(source, s)
        invariant
            lines.indexes(b),
            b == source.spec_bytes(),
            1 <= start <= s <= end <= line_count(b),
            trim_start(b, s as int, end as int) == trim_start(b, start as int, end as int),
        decreases end - s,
    {
        s = s + 1;
    }
    let ghost ts = trim_start(b, start as int, end as int);
    proof {
        lemma_trim_start_bounds(b, s as int, end as int);
    }
    if lines.is_blank(source, s) {
        // Only possible at the end of the run: every line of it is blank.
        assert(trim_start(b, (end + 1) as int, end as int) == end + 1);
        assert(ts == end + 1);
        assert(chunk_views(chunks@) =~= chunk_views(chunks@) + gap_chunks(
            rel_path@,
            language,
            b,
            (start as int, end as int),
        ));
        return ;
    }
    assert(ts == s);
    let mut e = end;
    while e > s && lines.is_blank(source, e)
        invariant
            lines.indexes(b),
            b == source.spec_bytes(),
            1 <= s <= e <= end <= line_count(b),
            !line_blank(b, s as int),
            trim_end(b, s as int, e as int) == trim_end(b, s as int, end as int),
        decreases e - s,
    {
        e = e - 1;
    }
    proof {
        if e == s {
            assert(trim_end(b, s as int, e as int) == e);
        }
    }
    push_split(chunks, rel_path, language, source, lines, ChunkKind::Module, None, s, e);
}

/// Mark which lines are covered by a top-level definition:
/// `covered[l - 1]` for line `l`.
fn covered_lines(tree: &Vec<DefTree>, count: usize) -> (covered: Vec<bool>)
    requires
        trees_fit(tree_views(tree@), count as int),
    ensures
        covered@.len() == count,
        forall|k: int|
            0 <= k < count ==> #[trigger] covered@[k] == is_covered(tree_views(tree@), k + 1),
{
    let ghost ts = tree_views(tree@);
    let mut covered: Vec<bool> = vec![false; count];
    let mut j: usize = 0;
    while j < tree.len()
        invariant
            ts == tree_views(tree@),
            trees_fit(ts, count as int),
            j <= tree@.len(),
            covered@.len() == count,
            forall|k: int|
                0 <= k < count ==> #[trigger] covered@[k] == is_covered(ts.take(j as int), k + 1),
        decreases tree@.len() - j,
    {
        let ghost next = ts.take(j + 1);
        assert(next[j as int] == ts[j as int]);
        assert(ts[j as int] == tree@[j as int]@);
        let first = tree[j].def.start_line;
        let last = tree[j].def.end_line;
        let mut l = first;
        loop
            invariant_except_break
                1 <= first <= l <= last,
                forall|k: int|
                    0 <= k < count ==> #[trigger] covered@[k] == (is_covered(ts.take(j as int), k + 1)
                        || (first <= k + 1 < l)),
            invariant
                ts == tree_views(tree@),
                trees_fit(ts, count as int),
                j < tree@.len(),
                next == ts.take(j + 1),
                first == ts[j as int].def.start_line,
                last == ts[j as int].def.end_line,
                last <= count,
                covered@.len() == count,
            ensures
                forall|k: int|
                    0 <= k < count ==> #[trigger] covered@[k] == (is_covered(ts.take(j as int), k + 1)
                        || (first <= k + 1 <= last)),
            decreases last - l,
        {
            covered.set(l - 1, true);
            if l == last {
                break;
            }
            l = l + 1;
        }
        assert forall|k: int| 0 <= k < count implies #[trigger] covered@[k] == is_covered(next, k + 1) by {
            if is_covered(ts.take(j as int), k + 1) {
                let i = choose|i: int|
                    0 <= i < ts.take(j as int).len() && (#[trigger] ts.take(j as int)[i]).def.start_line
                        <= k + 1 <= ts.take(j as int)[i].def.end_line;
                assert(next[i] == ts.take(j as int)[i]);
            }
            if is_covered(next, k + 1) {
                let i = choose|i: int|
                    0 <= i < next.len() && (#[trigger] next[i]).def.start_line <= k + 1
                        <= next[i].def.end_line;
                if i < j {
                    assert(next[i] == ts.take(j as int)[i]);
                }
            }
        }
        j = j + 1;
    }
    assert(ts.take(ts.len() as int) == ts);
    covered
}

/// Emit module chunks for every run of top-level lines not covered by any
/// definition.
fn push_module_chunks(
    chunks: &mut Vec<Chunk>,
    rel_path: &str,
    language: Language,
    source: &str,
    lines: &LineIndex,
    tree: &Vec<DefTree>,
)
    requires
        lines.indexes(source.spec_bytes()),
        trees_fit(tree_views(tree@), line_count(source.spec_bytes())),
    ensures
        chunk_views(final(chunks)@) == chunk_views(old(chunks)@) + module_chunks(
            rel_path@,
            language,
            source.spec_bytes(),
            gap_runs(tree_views(tree@), line_count(source.spec_bytes()), 1, None),
        ),
{
    let ghost b = source.spec_bytes();
    let ghost ts = tree_views(tree@);
    let count = lines.count;
    let ghost base = chunk_views(chunks@);
    let ghost target = base + module_chunks(rel_path@, language, b, gap_runs(ts, count as int, 1, None));
    let covered = covered_lines(tree, count);
    let mut gap_start: Option<usize> = None;
    let mut i: usize = 0;
    while i < count
        invariant
            lines.indexes(b),
            b == source.spec_bytes(),
            count == line_count(b),
            ts == tree_views(tree@),
            covered@.len() == count,
            forall|k: int| 0 <= k < count ==> #[trigger] covered@[k] == is_covered(ts, k + 1),
            i <= count,
            gap_start matches Some(s) ==> 1 <= s <= i,
            chunk_views(chunks@) + module_chunks(
                rel_path@,
                language,
                b,
                gap_runs(ts, count as int, i + 1, match gap_start {
                    Some(s) => Some(s as int),
                    None => None,
                }),
            ) == target,
        decreases count - i,
    {
        let line = i + 1;
        let ghost open = match gap_start {
            Some(s) => Some(s as int),
            None => None::<int>,
        };
        let is_covered = covered[i];
        match gap_start {
            None => {
                if !is_covered {
                    gap_start = Some(line);
                }
            },
            Some(start) => {
                if is_covered {
                    let ghost before = chunk_views(chunks@);
                    let ghost rest = gap_runs(ts, count as int, line + 1, None);
                    assert(gap_runs(ts, count as int, line as int, open) == seq![
                        (start as int, line - 1),
                    ] + rest);
                    assert((seq![(start as int, line - 1)] + rest).drop_first() == rest);
                    push_module_gap(chunks, rel_path, language, source, lines, start, line - 1);
                    gap_start = None;
                }
            },
        }
        i = i + 1;
    }
    if let Some(start) = gap_start {
        let ghost rest = gap_runs(ts, count as int, count + 1, None);
        assert(rest == Seq::<(int, int)>::empty());
        assert(seq![(start as int, count as int)].drop_first() == rest);
        push_module_gap(chunks, rel_path, language, source, lines, start, count);
        assert(module_chunks(rel_path@, language, b, rest) == Seq::<ChunkView>::empty());
        assert(chunk_views(chunks@) =~= target);
    } else {
        assert(chunk_views(chunks@) =~= target);
    }
}

/// Chunk `a` comes no later than chunk `b` in the output order: by first
/// line, then by last line.
pub open spec fn span_le(a: ChunkView, b: ChunkView) -> bool {
    a.start_line < b.start_line || (a.start_line == b.start_line && a.end_line <= b.end_line)
}

/// Insert `x` in front of the first element that it comes no later than.
pub open spec fn insert_by_span(t: Seq<ChunkView>, x: ChunkView) -> Seq<ChunkView>
    decreases t.len(),
{
    if t.len() == 0 || span_le(x, t[0]) {
        seq![x] + t
    } else {
        seq![t[0]] + insert_by_span(t.drop_first(), x)
    }
}

/// Stable sort by `(start_line, end_line)`: chunks with equal spans keep
/// their relative order.
pub open spec fn sort_by_span(s: Seq<ChunkView>) -> Seq<ChunkView>
    decreases s.len(),
{
    if s.len() == 0 {
        s
    } else {
        insert_by_span(sort_by_span(s.drop_first()), s[0])
    }
}

proof fn lemma_insert_at(t: Seq<ChunkView>, x: ChunkView, p: int)
    requires
        0 <= p <= t.len(),
        forall|q: int| 0 <= q < p ==> !span_le(x, #[trigger] t[q]),
        p < t.len() ==> span_le(x, t[p]),
    ensures
        insert_by_span(t, x) == t.insert(p, x),
    decreases p,
{
    if p == 0 {
        assert(insert_by_span(t, x) =~= t.insert(p, x));
    } else {
        let r = t.drop_first();
        assert forall|q: int| 0 <= q < p - 1 implies !span_le(x, #[trigger] r[q]) by {
            assert(r[q] == t[q + 1]);
        }
        if p - 1 < r.len() {
            assert(r[p - 1] == t[p]);
        }
        lemma_insert_at(r, x, p - 1);
        assert(!span_le(x, t[0]));
        assert(seq![t[0]] + r.insert(p - 1, x) =~= t.insert(p, x));
    }
}

/// Order the chunks by span, stably.
pub fn sort_chunks(v: Vec<Chunk>) -> (res: Vec<Chunk>)
    ensures
        chunk_views(res@) == sort_by_span(chunk_views(v@)),
{
    let ghost all = chunk_views(v@);
    let n = v.len();
    let mut rest = v;
    let mut out: Vec<Chunk> = Vec::new();
    while rest.len() > 0
        invariant
            rest@.len() <= n,
            n == all.len(),
            chunk_views(rest@) == all.take(rest@.len() as int),
            chunk_views(out@) == sort_by_span(all.skip(rest@.len() as int)),
        decreases rest@.len(),
    {
        let ghost k = rest@.len() - 1;
        let x = rest.pop().unwrap();
        let ghost xv = x@;
        assert(all[k] == xv) by {
            assert(all.take(k + 1)[k] == all[k]);
        }
        assert(chunk_views(rest@) =~= all.take(k));
        assert(all.skip(k).drop_first() =~= all.skip(k + 1));
        assert(all.skip(k)[0] == xv);
        let mut p: usize = 0;
        while p < out.len() && !(x.start_line < out[p].start_line || (x.start_line
            == out[p].start_line && x.end_line <= out[p].end_line))
            invariant
                p <= out@.len(),
                xv == x@,
                forall|q: int| 0 <= q < p ==> !span_le(xv, #[trigger] chunk_views(out@)[q]),
            decreases out@.len() - p,
        {
            p = p + 1;
        }
        proof {
            lemma_insert_at(chunk_views(out@), xv, p as int);
        }
        let ghost before = out@;
        out.insert(p, x);
        assert(chunk_views(out@) =~= chunk_views(before).insert(p as int, xv));
    }
    assert(all.skip(0) =~= all);
    out
}

/// The chunks of a file with text bytes `b` and captured definitions `defs`
/// (outer before inner): the chunks of the top-level definitions and the
/// module chunks of the code between them, ordered by span.
pub open spec fn assembled(path: Seq<char>, language: Language, b: Seq<u8>, defs: Seq<DefView>) -> Seq<
    ChunkView,
> {
    let ts = nest(defs);
    sort_by_span(
        def_chunks(path, language, b, ts) + module_chunks(
            path,
            language,
            b,
            gap_runs(ts, line_count(b), 1, None),
        ),
    )
}

/// Assemble the chunks of one file from its definitions, sorted outer
/// before inner.
pub fn assemble_chunks(
    rel_path: &str,
    language: Language,
    source: &str,
    lines: &LineIndex,
    defs: Vec<Def>,
) -> (chunks: Vec<Chunk>)
    requires
        lines.indexes(source.spec_bytes()),
        defs_fit(def_views(defs@), line_count(source.spec_bytes())),
    ensures
        chunk_views(chunks@) == assembled(rel_path@, language, source.spec_bytes(), def_views(defs@)),
{
    let ghost b = source.spec_bytes();
    // Pass 1: nesting.
    let tree = build_tree(&defs);
    proof {
        lemma_nest_fits(def_views(defs@), line_count(b));
    }
    let mut chunks: Vec<Chunk> = Vec::new();
    // Pass 2: definition chunks.
    push_def_chunks(&mut chunks, rel_path, language, source, lines, &tree);
    // Pass 3: module chunks for top-level lines not covered by any definition.
    push_module_chunks(&mut chunks, rel_path, language, source, lines, &tree);
    assert(chunk_views(Seq::<Chunk>::empty()) =~= Seq::<ChunkView>::empty());
    sort_chunks(chunks)
}

/// Ordered by span, first line then last line.
pub open spec fn sorted_by_span(s: Seq<ChunkView>) -> bool {
    forall|i: int, j: int| 0 <= i < j < s.len() ==> span_le(#[trigger] s[i], #[trigger] s[j])
}

proof fn lemma_insert_is_insert(t: Seq<ChunkView>, x: ChunkView)
    ensures
        exists|p: int| 0 <= p <= t.len() && insert_by_span(t, x) == t.insert(p, x),
    decreases t.len(),
{
    if t.len() == 0 || span_le(x, t[0]) {
        assert(insert_by_span(t, x) =~= t.insert(0, x));
    } else {
        let r = t.drop_first();
        lemma_insert_is_insert(r, x);
        let p = choose|p: int| 0 <= p <= r.len() && insert_by_span(r, x) == r.insert(p, x);
        assert(seq![t[0]] + r.insert(p, x) =~= t.insert(p + 1, x));
    }
}

proof fn lemma_insert_sorted(t: Seq<ChunkView>, x: ChunkView)
    requires
        sorted_by_span(t),
    ensures
        sorted_by_span(insert_by_span(t, x)),
    decreases t.len(),
{
    let r = insert_by_span(t, x);
    if t.len() == 0 {
    } else if span_le(x, t[0]) {
        assert(r == seq![x] + t);
        assert forall|i: int, j: int| 0 <= i < j < r.len() implies span_le(#[trigger] r[i], #[trigger] r[j]) by {
            if i == 0 {
                assert(r[j] == t[j - 1]);
                if j > 1 {
                    assert(span_le(t[0], t[j - 1]));
                }
            } else {
                assert(r[i] == t[i - 1] && r[j] == t[j - 1]);
            }
        }
    } else {
        let rest = t.drop_first();
        assert forall|i: int, j: int| 0 <= i < j < rest.len() implies span_le(#[trigger] rest[i], #[trigger] rest[j]) by {
            assert(rest[i] == t[i + 1] && rest[j] == t[j + 1]);
        }
        lemma_insert_sorted(rest, x);
        lemma_insert_is_insert(rest, x);
        let ir = insert_by_span(rest, x);
        let p = choose|p: int| 0 <= p <= rest.len() && ir == rest.insert(p, x);
        assert(r == seq![t[0]] + ir);
        assert forall|k: int| 0 <= k < ir.len() implies span_le(t[0], #[trigger] ir[k]) by {
            if k < p {
                assert(ir[k] == rest[k] && rest[k] == t[k + 1]);
            } else if k > p {
                assert(ir[k] == rest[k - 1] && rest[k - 1] == t[k]);
            } else {
                assert(ir[k] == x);
            }
        }
        assert forall|i: int, j: int| 0 <= i < j < r.len() implies span_le(#[trigger] r[i], #[trigger] r[j]) by {
            if i == 0 {
                assert(r[j] == ir[j - 1]);
            } else {
                assert(r[i] == ir[i - 1] && r[j] == ir[j - 1]);
            }
        }
    }
}

/// Sorting orders the chunks by span and neither loses nor duplicates any.
pub proof fn lemma_sort_by_span(s: Seq<ChunkView>)
    ensures
        sorted_by_span(sort_by_span(s)),
        sort_by_span(s).to_multiset() == s.to_multiset(),
    decreases s.len(),
{
    broadcast use vstd::seq_lib::group_to_multiset_ensures;

    if s.len() > 0 {
        let r = s.drop_first();
        lemma_sort_by_span(r);
        let t = sort_by_span(r);
        lemma_insert_sorted(t, s[0]);
        lemma_insert_is_insert(t, s[0]);
        let p = choose|p: int| 0 <= p <= t.len() && insert_by_span(t, s[0]) == t.insert(p, s[0]);
        assert(s == r.insert(0, s[0]));
        assert(sort_by_span(s).to_multiset() == t.to_multiset().insert(s[0]));
        assert(s.to_multiset() == r.to_multiset().insert(s[0]));
    }
}

/// A chunk of the file with bytes `b`: its lines exist, it spans at most
/// `MAX_CHUNK_LINES` lines, its text is exactly the text of those lines,
/// and it carries the file's path and language.
pub open spec fn chunk_in_file(c: ChunkView, path: Seq<char>, language: Language, b: Seq<u8>) -> bool {
    &&& 1 <= c.start_line <= c.end_line <= line_count(b)
    &&& c.end_line - c.start_line < MAX_CHUNK_LINES
    &&& c.text == span_text(b, c.start_line, c.end_line)
    &&& c.path == path
    &&& c.language == language
}

/// Every chunk of the span `start..=end` is a chunk of the file inside the
/// span, with the given kind and name.
pub proof fn lemma_split_in_file(
    path: Seq<char>,
    language: Language,
    b: Seq<u8>,
    kind: ChunkKind,
    name: Option<Seq<char>>,
    start: int,
    end: int,
)
    requires
        1 <= start,
        end <= line_count(b),
    ensures
        forall|i: int|
            0 <= i < split_views(path, language, b, kind, name, start, end).len() ==> {
                let c = #[trigger] split_views(path, language, b, kind, name, start, end)[i];
                &&& chunk_in_file(c, path, language, b)
                &&& start <= c.start_line
                &&& c.end_line <= end
                &&& c.kind == kind
                &&& c.name == name
            },
{
    lemma_windows(start, end);
    let w = windows(start, end);
    let v = split_views(path, language, b, kind, name, start, end);
    assert forall|i: int| 0 <= i < v.len() implies {
        let c = #[trigger] v[i];
        &&& chunk_in_file(c, path, language, b)
        &&& start <= c.start_line
        &&& c.end_line <= end
        &&& c.kind == kind
        &&& c.name == name
    } by {
        assert(v[i] == chunk_at(path, language, b, kind, name, w[i].0, w[i].1));
    }
}

/// No definition has the module kind.
pub open spec fn no_module_defs(defs: Seq<DefView>) -> bool {
    forall|i: int| 0 <= i < defs.len() ==> (#[trigger] defs[i]).kind != ChunkKind::Module
}

/// Every chunk of the kept children of a split class fits the file.
proof fn lemma_children_in_file(
    path: Seq<char>,
    language: Language,
    b: Seq<u8>,
    parent: Seq<char>,
    cs: Seq<DefView>,
)
    requires
        defs_fit(cs, line_count(b)),
        no_module_defs(cs),
    ensures
        forall|i: int|
            0 <= i < children_chunks(path, language, b, parent, cs).len() ==> chunk_in_file(
                #[trigger] children_chunks(path, language, b, parent, cs)[i],
                path,
                language,
                b,
            ) && children_chunks(path, language, b, parent, cs)[i].kind != ChunkKind::Module,
    decreases cs.len(),
{
    if cs.len() > 0 {
        let p = cs.drop_last();
        let c = cs.last();
        assert(c == cs[cs.len() - 1]);
        assert forall|k: int| 0 <= k < p.len() implies 1 <= (#[trigger] p[k]).start_line
            <= p[k].end_line <= line_count(b) && p[k].kind != ChunkKind::Module by {
            assert(p[k] == cs[k]);
        }
        lemma_children_in_file(path, language, b, parent, p);
        lemma_split_in_file(path, language, b, c.kind, Some(qualified(parent, c.name)), c.start_line, c.end_line);
        let left = children_chunks(path, language, b, parent, p);
        let right = split_views(path, language, b, c.kind, Some(qualified(parent, c.name)), c.start_line, c.end_line);
        let all = children_chunks(path, language, b, parent, cs);
        assert(all == left + right);
        assert forall|i: int| 0 <= i < all.len() implies chunk_in_file(#[trigger] all[i], path, language, b)
            && all[i].kind != ChunkKind::Module by {
            if i < left.len() {
                assert(all[i] == left[i]);
            } else {
                assert(all[i] == right[i - left.len()]);
            }
        }
    }
}

/// No definition of the nesting, top-level or child, has the module kind.
pub open spec fn no_module_trees(ts: Seq<TreeView>) -> bool {
    forall|i: int|
        0 <= i < ts.len() ==> (#[trigger] ts[i]).def.kind != ChunkKind::Module && no_module_defs(
            ts[i].children,
        )
}

proof fn lemma_nest_no_module(defs: Seq<DefView>)
    requires
        no_module_defs(defs),
    ensures
        no_module_trees(nest(defs)),
{
    lemma_nest_from_input(defs);
    let t = nest(defs);
    assert forall|i: int| 0 <= i < t.len() implies (#[trigger] t[i]).def.kind != ChunkKind::Module
        && no_module_defs(t[i].children) by {
        let k = choose|k: int| 0 <= k < defs.len() && defs[k] == t[i].def;
        assert forall|j: int| 0 <= j < t[i].children.len() implies (
        #[trigger] t[i].children[j]).kind != ChunkKind::Module by {
            let m = choose|m: int| 0 <= m < defs.len() && defs[m] == t[i].children[j];
        }
    }
}

proof fn lemma_tree_in_file(path: Seq<char>, language: Language, b: Seq<u8>, t: TreeView)
    requires
        trees_fit(seq![t], line_count(b)),
        no_module_trees(seq![t]),
    ensures
        forall|i: int|
            0 <= i < tree_chunks(path, language, b, t).len() ==> chunk_in_file(
                #[trigger] tree_chunks(path, language, b, t)[i],
                path,
                language,
                b,
            ) && tree_chunks(path, language, b, t)[i].kind != ChunkKind::Module,
{
    assert(seq![t][0] == t);
    let all = tree_chunks(path, language, b, t);
    if splits_class(t) {
        let he = header_end(t);
        let header = if he >= t.def.start_line {
            split_views(path, language, b, ChunkKind::Class, Some(t.def.name), t.def.start_line, he)
        } else {
            seq![]
        };
        let kids = children_chunks(path, language, b, t.def.name, t.children);
        assert(t.children[0].start_line >= 1);
        if he >= t.def.start_line {
            lemma_split_in_file(path, language, b, ChunkKind::Class, Some(t.def.name), t.def.start_line, he);
        }
        lemma_children_in_file(path, language, b, t.def.name, t.children);
        assert(all == header + kids);
        assert forall|i: int| 0 <= i < all.len() implies chunk_in_file(#[trigger] all[i], path, language, b)
            && all[i].kind != ChunkKind::Module by {
            if i < header.len() {
                assert(all[i] == header[i]);
            } else {
                assert(all[i] == kids[i - header.len()]);
            }
        }
    } else {
        lemma_split_in_file(path, language, b, t.def.kind, Some(t.def.name), t.def.start_line, t.def.end_line);
    }
}

proof fn lemma_def_chunks_in_file(path: Seq<char>, language: Language, b: Seq<u8>, ts: Seq<TreeView>)
    requires
        trees_fit(ts, line_count(b)),
        no_module_trees(ts),
    ensures
        forall|i: int|
            0 <= i < def_chunks(path, language, b, ts).len() ==> chunk_in_file(
                #[trigger] def_chunks(path, language, b, ts)[i],
                path,
                language,
                b,
            ) && def_chunks(path, language, b, ts)[i].kind != ChunkKind::Module,
    decreases ts.len(),
{
    if ts.len() > 0 {
        let p = ts.drop_last();
        let t = ts.last();
        assert(t == ts[ts.len() - 1]);
        assert(trees_fit(p, line_count(b)) && no_module_trees(p)) by {
            assert forall|k: int| 0 <= k < p.len() implies p[k] == ts[k] by {}
        }
        lemma_def_chunks_in_file(path, language, b, p);
        assert(trees_fit(seq![t], line_count(b)) && no_module_trees(seq![t])) by {
            assert(seq![t][0] == ts[ts.len() - 1]);
        }
        lemma_tree_in_file(path, language, b, t);
        let left = def_chunks(path, language, b, p);
        let right = tree_chunks(path, language, b, t);
        let all = def_chunks(path, language, b, ts);
        assert(all == left + right);
        assert forall|i: int| 0 <= i < all.len() implies chunk_in_file(#[trigger] all[i], path, language, b)
            && all[i].kind != ChunkKind::Module by {
            if i < left.len() {
                assert(all[i] == left[i]);
            } else {
                assert(all[i] == right[i - left.len()]);
            }
        }
    }
}

/// The runs of uncovered lines: each lies inside the file and holds only
/// uncovered lines, and every uncovered line (from `l` on, or in the open
/// run) lies in one of them.
proof fn lemma_gap_runs(ts: Seq<TreeView>, count: int, l: int, open: Option<int>)
    requires
        1 <= l <= count + 1,
        open matches Some(s) ==> 1 <= s < l && forall|k: int| s <= k < l ==> !is_covered(ts, k),
    ensures
        forall|i: int|
            0 <= i < gap_runs(ts, count, l, open).len() ==> {
                let g = #[trigger] gap_runs(ts, count, l, open)[i];
                &&& 1 <= g.0 <= g.1 <= count
                &&& forall|k: int| g.0 <= k <= g.1 ==> !is_covered(ts, k)
            },
        forall|k: int|
            #![trigger is_covered(ts, k)]
            1 <= k <= count && !is_covered(ts, k) && (k >= l || (open matches Some(s) && s <= k))
                ==> exists|i: int|
                0 <= i < gap_runs(ts, count, l, open).len() && (#[trigger] gap_runs(
                    ts,
                    count,
                    l,
                    open,
                )[i]).0 <= k <= gap_runs(ts, count, l, open)[i].1,
    decreases count + 1 - l,
{
    let r = gap_runs(ts, count, l, open);
    if l > count {
        match open {
            Some(s) => {
                assert(r == seq![(s, count)]);
                assert forall|k: int|
                    #![trigger is_covered(ts, k)]
                    1 <= k <= count && !is_covered(ts, k) && (k >= l || (open matches Some(s) && s
                        <= k)) implies exists|i: int|
                    0 <= i < r.len() && (#[trigger] r[i]).0 <= k <= r[i].1 by {
                    assert(r[0].0 <= k <= r[0].1);
                }
            },
            None => {},
        }
    } else if is_covered(ts, l) {
        lemma_gap_runs(ts, count, l + 1, None);
        let rest = gap_runs(ts, count, l + 1, None);
        match open {
            Some(s) => {
                assert(r == seq![(s, l - 1)] + rest);
                assert forall|i: int| 0 <= i < r.len() implies {
                    let g = #[trigger] r[i];
                    &&& 1 <= g.0 <= g.1 <= count
                    &&& forall|k: int| g.0 <= k <= g.1 ==> !is_covered(ts, k)
                } by {
                    if i > 0 {
                        assert(r[i] == rest[i - 1]);
                    }
                }
                assert forall|k: int|
                    #![trigger is_covered(ts, k)]
                    1 <= k <= count && !is_covered(ts, k) && (k >= l || (open matches Some(s) && s
                        <= k)) implies exists|i: int|
                    0 <= i < r.len() && (#[trigger] r[i]).0 <= k <= r[i].1 by {
                    if k > l {
                        let i = choose|i: int| 0 <= i < rest.len() && (#[trigger] rest[i]).0 <= k <= rest[i].1;
                        assert(r[i + 1] == rest[i]);
                    } else {
                        assert(k < l);
                        assert(r[0].0 <= k <= r[0].1);
                    }
                }
            },
            None => {
                assert forall|k: int|
                    #![trigger is_covered(ts, k)]
                    1 <= k <= count && !is_covered(ts, k) && (k >= l || (open matches Some(s) && s
                        <= k)) implies exists|i: int|
                    0 <= i < r.len() && (#[trigger] r[i]).0 <= k <= r[i].1 by {
                    assert(k > l);
                }
            },
        }
    } else {
        let next = match open {
            Some(s) => Some(s),
            None => Some(l),
        };
        lemma_gap_runs(ts, count, l + 1, next);
    }
}

/// Every line of a run that is not blank lies in its trimmed part.
proof fn lemma_trim_keeps(b: Seq<u8>, start: int, end: int, l: int)
    requires
        start <= l <= end,
        !line_blank(b, l),
    ensures
        trim_start(b, start, end) <= l <= trim_end(b, trim_start(b, start, end), end),
{
    lemma_trim_start_bounds(b, start, end);
    let s = trim_start(b, start, end);
    lemma_trim_end_bounds(b, s, end);
}

proof fn lemma_gap_chunks_in_file(path: Seq<char>, language: Language, b: Seq<u8>, gap: (int, int))
    requires
        1 <= gap.0 <= gap.1 <= line_count(b),
    ensures
        forall|i: int|
            0 <= i < gap_chunks(path, language, b, gap).len() ==> {
                let c = #[trigger] gap_chunks(path, language, b, gap)[i];
                &&& chunk_in_file(c, path, language, b)
                &&& c.kind == ChunkKind::Module
                &&& c.name is None
                &&& gap.0 <= c.start_line
                &&& c.end_line <= gap.1
            },
{
    lemma_trim_start_bounds(b, gap.0, gap.1);
    let s = trim_start(b, gap.0, gap.1);
    lemma_trim_end_bounds(b, s, gap.1);
    let e = trim_end(b, s, gap.1);
    if s <= e {
        lemma_split_in_file(path, language, b, ChunkKind::Module, None, s, e);
    }
}

proof fn lemma_module_chunks_in_file(
    path: Seq<char>,
    language: Language,
    b: Seq<u8>,
    ts: Seq<TreeView>,
    gaps: Seq<(int, int)>,
)
    requires
        forall|i: int|
            0 <= i < gaps.len() ==> {
                let g = #[trigger] gaps[i];
                &&& 1 <= g.0 <= g.1 <= line_count(b)
                &&& forall|k: int| g.0 <= k <= g.1 ==> !is_covered(ts, k)
            },
    ensures
        forall|i: int|
            0 <= i < module_chunks(path, language, b, gaps).len() ==> {
                let c = #[trigger] module_chunks(path, language, b, gaps)[i];
                &&& chunk_in_file(c, path, language, b)
                &&& c.kind == ChunkKind::Module
                &&& c.name is None
                &&& forall|k: int| c.start_line <= k <= c.end_line ==> !is_covered(ts, k)
            },
    decreases gaps.len(),
{
    if gaps.len() > 0 {
        let rest = gaps.drop_first();
        assert forall|i: int| 0 <= i < rest.len() implies {
            let g = #[trigger] rest[i];
            &&& 1 <= g.0 <= g.1 <= line_count(b)
            &&& forall|k: int| g.0 <= k <= g.1 ==> !is_covered(ts, k)
        } by {
            assert(rest[i] == gaps[i + 1]);
        }
        lemma_module_chunks_in_file(path, language, b, ts, rest);
        let g = gaps[0];
        lemma_gap_chunks_in_file(path, language, b, g);
        let left = gap_chunks(path, language, b, g);
        let right = module_chunks(path, language, b, rest);
        let all = module_chunks(path, language, b, gaps);
        assert(all == left + right);
        assert forall|i: int| 0 <= i < all.len() implies {
            let c = #[trigger] all[i];
            &&& chunk_in_file(c, path, language, b)
            &&& c.kind == ChunkKind::Module
            &&& c.name is None
            &&& forall|k: int| c.start_line <= k <= c.end_line ==> !is_covered(ts, k)
        } by {
            if i < left.len() {
                assert(all[i] == left[i]);
            } else {
                assert(all[i] == right[i - left.len()]);
            }
        }
    }
}

/// The chunks in the assembled order are exactly the definition chunks
/// and the module chunks: each chunk of the result is one of them, and
/// each of them is in the result.
pub proof fn lemma_assembled_members(path: Seq<char>, language: Language, b: Seq<u8>, defs: Seq<DefView>)
    ensures
        ({
            let ts = nest(defs);
            let parts = def_chunks(path, language, b, ts) + module_chunks(
                path,
                language,
                b,
                gap_runs(ts, line_count(b), 1, None),
            );
            &&& assembled(path, language, b, defs).to_multiset() == parts.to_multiset()
            &&& forall|i: int|
                0 <= i < assembled(path, language, b, defs).len() ==> parts.contains(
                    #[trigger] assembled(path, language, b, defs)[i],
                )
            &&& forall|j: int|
                0 <= j < parts.len() ==> assembled(path, language, b, defs).contains(#[trigger] parts[j])
        }),
{
    broadcast use vstd::seq_lib::group_to_multiset_ensures;

    let ts = nest(defs);
    let parts = def_chunks(path, language, b, ts) + module_chunks(
        path,
        language,
        b,
        gap_runs(ts, line_count(b), 1, None),
    );
    let r = assembled(path, language, b, defs);
    lemma_sort_by_span(parts);
    assert forall|i: int| 0 <= i < r.len() implies parts.contains(#[trigger] r[i]) by {
        assert(r.contains(r[i]));
        assert(r.to_multiset().count(r[i]) > 0);
    }
    assert forall|j: int| 0 <= j < parts.len() implies r.contains(#[trigger] parts[j]) by {
        assert(parts.contains(parts[j]));
        assert(parts.to_multiset().count(parts[j]) > 0);
    }
}

/// Laws of assembly, for definitions that fit the file and are not of the
/// module kind (as captured definitions are): every chunk is a chunk of
/// the file (existing lines, at most `MAX_CHUNK_LINES` of them, text exactly
/// those lines, the file's path and language); the chunks are ordered by
/// span; and a module chunk is unnamed and holds only lines that no
/// top-level definition covers.
pub proof fn lemma_assembled_chunks(path: Seq<char>, language: Language, b: Seq<u8>, defs: Seq<DefView>)
    requires
        defs_fit(defs, line_count(b)),
        no_module_defs(defs),
    ensures
        forall|i: int|
            0 <= i < assembled(path, language, b, defs).len() ==> chunk_in_file(
                #[trigger] assembled(path, language, b, defs)[i],
                path,
                language,
                b,
            ),
        sorted_by_span(assembled(path, language, b, defs)),
        forall|i: int|
            0 <= i < assembled(path, language, b, defs).len() && (#[trigger] assembled(
                path,
                language,
                b,
                defs,
            )[i]).kind == ChunkKind::Module ==> assembled(path, language, b, defs)[i].name is None
                && forall|k: int|
                assembled(path, language, b, defs)[i].start_line <= k <= assembled(
                    path,
                    language,
                    b,
                    defs,
                )[i].end_line ==> !is_covered(nest(defs), k),
{
    let ts = nest(defs);
    let count = line_count(b);
    let dc = def_chunks(path, language, b, ts);
    let gaps = gap_runs(ts, count, 1, None);
    let mc = module_chunks(path, language, b, gaps);
    let parts = dc + mc;
    let r = assembled(path, language, b, defs);
    lemma_nest_fits(defs, count);
    lemma_nest_no_module(defs);
    lemma_def_chunks_in_file(path, language, b, ts);
    if count >= 0 {
        lemma_gap_runs(ts, count, 1, None);
    }
    lemma_module_chunks_in_file(path, language, b, ts, gaps);
    lemma_assembled_members(path, language, b, defs);
    lemma_sort_by_span(parts);
    assert forall|i: int| 0 <= i < r.len() implies chunk_in_file(#[trigger] r[i], path, language, b) && (
    r[i].kind == ChunkKind::Module ==> r[i].name is None && forall|k: int|
        r[i].start_line <= k <= r[i].end_line ==> !is_covered(ts, k)) by {
        assert(parts.contains(r[i]));
        let j = choose|j: int| 0 <= j < parts.len() && parts[j] == r[i];
        if j < dc.len() {
            assert(parts[j] == dc[j]);
        } else {
            assert(parts[j] == mc[j - dc.len()]);
        }
    }
}

/// Nothing uncaptured is lost: a line that no top-level definition covers
/// and that is not blank lies in a module chunk.
pub proof fn lemma_uncovered_lines_in_module_chunks(
    path: Seq<char>,
    language: Language,
    b: Seq<u8>,
    defs: Seq<DefView>,
    l: int,
)
    requires
        1 <= l <= line_count(b),
        !is_covered(nest(defs), l),
        !line_blank(b, l),
    ensures
        exists|i: int|
            0 <= i < assembled(path, language, b, defs).len() && (#[trigger] assembled(
                path,
                language,
                b,
                defs,
            )[i]).kind == ChunkKind::Module && assembled(path, language, b, defs)[i].start_line <= l
                <= assembled(path, language, b, defs)[i].end_line,
{
    let ts = nest(defs);
    let count = line_count(b);
    let dc = def_chunks(path, language, b, ts);
    let gaps = gap_runs(ts, count, 1, None);
    let mc = module_chunks(path, language, b, gaps);
    let parts = dc + mc;
    let r = assembled(path, language, b, defs);
    lemma_gap_runs(ts, count, 1, None);
    assert(is_covered(ts, l) == is_covered(ts, l));
    let gi = choose|gi: int| 0 <= gi < gaps.len() && (#[trigger] gaps[gi]).0 <= l <= gaps[gi].1;
    let g = gaps[gi];
    lemma_trim_keeps(b, g.0, g.1, l);
    let s = trim_start(b, g.0, g.1);
    let e = trim_end(b, s, g.1);
    lemma_windows_cover(s, e, l);
    let w = windows(s, e);
    let wi = choose|wi: int| 0 <= wi < w.len() && (#[trigger] w[wi]).0 <= l <= w[wi].1;
    let gc = gap_chunks(path, language, b, g);
    assert(gc[wi] == chunk_at(path, language, b, ChunkKind::Module, None, w[wi].0, w[wi].1));
    lemma_module_chunks_index(path, language, b, gaps, gi);
    let off = choose|off: int| #[trigger] placed_at(mc, gc, off);
    let c = gc[wi];
    assert(mc[off + wi] == c);
    assert(parts[dc.len() + off + wi] == c);
    lemma_assembled_members(path, language, b, defs);
    assert(r.contains(parts[dc.len() + off + wi]));
    let i = choose|i: int| 0 <= i < r.len() && r[i] == c;
    assert(r[i].kind == ChunkKind::Module);
}

/// `small` appears in `big` starting at `off`.
pub open spec fn placed_at(big: Seq<ChunkView>, small: Seq<ChunkView>, off: int) -> bool {
    &&& 0 <= off
    &&& off + small.len() <= big.len()
    &&& forall|q: int| 0 <= q < small.len() ==> big[off + q] == #[trigger] small[q]
}

/// The module chunks of one run appear, in order, among the module chunks
/// of all runs.
proof fn lemma_module_chunks_index(
    path: Seq<char>,
    language: Language,
    b: Seq<u8>,
    gaps: Seq<(int, int)>,
    gi: int,
)
    requires
        0 <= gi < gaps.len(),
    ensures
        exists|off: int|
            #[trigger] placed_at(
                module_chunks(path, language, b, gaps),
                gap_chunks(path, language, b, gaps[gi]),
                off,
            ),
    decreases gaps.len(),
{
    let all = module_chunks(path, language, b, gaps);
    let head = gap_chunks(path, language, b, gaps[0]);
    let rest = module_chunks(path, language, b, gaps.drop_first());
    assert(all == head + rest);
    if gi == 0 {
        assert(placed_at(all, head, 0));
    } else {
        lemma_module_chunks_index(path, language, b, gaps.drop_first(), gi - 1);
        assert(gaps.drop_first()[gi - 1] == gaps[gi]);
        let gc = gap_chunks(path, language, b, gaps[gi]);
        let off = choose|off: int| #[trigger] placed_at(rest, gc, off);
        assert forall|q: int| 0 <= q < gc.len() implies all[(head.len() + off) + q] == #[trigger] gc[q] by {
            assert(all[head.len() + off + q] == rest[off + q]);
        }
        assert(placed_at(all, gc, head.len() + off));
    }
}

proof fn lemma_nest_children_of_class(defs: Seq<DefView>)
    ensures
        forall|i: int|
            0 <= i < nest(defs).len() && (#[trigger] nest(defs)[i]).children.len() > 0 ==> nest(
                defs,
            )[i].def.kind == ChunkKind::Class,
    decreases defs.len(),
{
    if defs.len() > 0 {
        lemma_nest_children_of_class(defs.drop_last());
    }
}

proof fn lemma_nest_children_within(defs: Seq<DefView>)
    ensures
        forall|i: int, j: int|
            0 <= i < nest(defs).len() && 0 <= j < nest(defs)[i].children.len() ==> spans_contain(
                #[trigger] nest(defs)[i].def,
                #[trigger] nest(defs)[i].children[j],
            ),
    decreases defs.len(),
{
    if defs.len() > 0 {
        let p = defs.drop_last();
        lemma_nest_children_within(p);
        let t = nest(p);
        let r = nest(defs);
        let d = defs.last();
        if t.len() > 0 && spans_contain(t.last().def, d) {
            let top = t.last();
            if top.def.kind == ChunkKind::Class && !(top.children.len() > 0 && spans_contain(
                top.children.last(),
                d,
            )) {
                assert forall|i: int, j: int|
                    0 <= i < r.len() && 0 <= j < r[i].children.len() implies spans_contain(
                    #[trigger] r[i].def,
                    #[trigger] r[i].children[j],
                ) by {
                    if i == t.len() - 1 {
                        if j < top.children.len() {
                            assert(r[i].children[j] == top.children[j]);
                        }
                    } else {
                        assert(r[i] == t[i]);
                    }
                }
            }
        } else {
            assert forall|i: int, j: int|
                0 <= i < r.len() && 0 <= j < r[i].children.len() implies spans_contain(
                #[trigger] r[i].def,
                #[trigger] r[i].children[j],
            ) by {
                assert(r[i] == t[i]);
            }
        }
    }
}

proof fn lemma_nest_tops_apart(defs: Seq<DefView>)
    ensures
        forall|i: int|
            0 < i < nest(defs).len() ==> !spans_contain(nest(defs)[i - 1].def, #[trigger] nest(defs)[i].def),
    decreases defs.len(),
{
    if defs.len() > 0 {
        let p = defs.drop_last();
        lemma_nest_tops_apart(p);
        let t = nest(p);
        let r = nest(defs);
        let d = defs.last();
        if t.len() > 0 && spans_contain(t.last().def, d) {
            assert forall|i: int| 0 < i < r.len() implies !spans_contain(r[i - 1].def, #[trigger] r[i].def) by {
                assert(r[i].def == t[i].def && r[i - 1].def == t[i - 1].def);
            }
        } else {
            assert forall|i: int| 0 < i < r.len() implies !spans_contain(r[i - 1].def, #[trigger] r[i].def) by {
                if i < t.len() {
                    assert(r[i] == t[i] && r[i - 1] == t[i - 1]);
                } else {
                    assert(r[i - 1] == t.last());
                }
            }
        }
    }
}

/// Laws of nesting: only a class keeps children; each kept child lies in the
/// span of its top-level definition; a top-level definition does not lie in
/// the span of the one before it (a definition nested in a function or
/// method is not split out).
pub proof fn lemma_nest_shape(defs: Seq<DefView>)
    ensures
        forall|i: int|
            0 <= i < nest(defs).len() && (#[trigger] nest(defs)[i]).children.len() > 0 ==> nest(
                defs,
            )[i].def.kind == ChunkKind::Class,
        forall|i: int, j: int|
            0 <= i < nest(defs).len() && 0 <= j < nest(defs)[i].children.len() ==> spans_contain(
                #[trigger] nest(defs)[i].def,
                #[trigger] nest(defs)[i].children[j],
            ),
        forall|i: int|
            0 < i < nest(defs).len() ==> !spans_contain(nest(defs)[i - 1].def, #[trigger] nest(defs)[i].def),
{
    lemma_nest_children_of_class(defs);
    lemma_nest_children_within(defs);
    lemma_nest_tops_apart(defs);
}

/// Nesting goes definition by definition: two lists that nest alike still
/// nest alike once the same definitions follow them.
pub proof fn lemma_nest_extend(a: Seq<DefView>, b: Seq<DefView>, s: Seq<DefView>)
    requires
        nest(a) == nest(b),
    ensures
        nest(a + s) == nest(b + s),
    decreases s.len(),
{
    if s.len() == 0 {
        assert(a + s =~= a);
        assert(b + s =~= b);
    } else {
        lemma_nest_extend(a, b, s.drop_last());
        assert((a + s).drop_last() =~= a + s.drop_last());
        assert((b + s).drop_last() =~= b + s.drop_last());
        assert((a + s).last() == s.last());
        assert((b + s).last() == s.last());
    }
}

/// A definition nested in a function or method adds no chunk, wherever it
/// stands among the definitions: one that comes after `prefix` inside the
/// span of its last top-level definition, when that is not a class or when
/// it lies inside the class's last kept method, leaves the chunks of
/// `prefix` followed by `suffix` as they are. (In definitions ordered outer
/// before inner, this is a definition inserted at its sorted place inside a
/// function, or inside a method of a class.)
pub proof fn lemma_nested_definition_adds_nothing(
    path: Seq<char>,
    language: Language,
    b: Seq<u8>,
    prefix: Seq<DefView>,
    d: DefView,
    suffix: Seq<DefView>,
)
    requires
        nest(prefix).len() > 0,
        spans_contain(nest(prefix).last().def, d),
        nest(prefix).last().def.kind != ChunkKind::Class || (nest(prefix).last().children.len() > 0
            && spans_contain(nest(prefix).last().children.last(), d)),
    ensures
        assembled(path, language, b, prefix.push(d) + suffix) == assembled(path, language, b, prefix + suffix),
{
    assert(prefix.push(d).drop_last() =~= prefix);
    assert(prefix.push(d).last() == d);
    assert(nest(prefix.push(d)) == nest(prefix));
    lemma_nest_extend(prefix.push(d), prefix, suffix);
}

/// Spans of syntax-tree nodes nest or are disjoint.
pub open spec fn laminar(s: Seq<DefView>) -> bool {
    forall|i: int, j: int|
        0 <= i < j < s.len() ==> spans_contain(#[trigger] s[i], #[trigger] s[j]) || spans_contain(s[j], s[i])
            || s[i].end_byte <= s[j].start_byte || s[j].end_byte <= s[i].start_byte
}

/// In ordered, laminar definitions, every definition between one that
/// contains a non-empty `d` and `d` itself lies inside the first.
proof fn lemma_between_inside(prefix: Seq<DefView>, d: DefView, k: int)
    requires
        defs_ordered(prefix.push(d)),
        laminar(prefix.push(d)),
        d.start_byte < d.end_byte,
        0 <= k < prefix.len(),
        spans_contain(prefix[k], d),
    ensures
        forall|i: int| k < i < prefix.len() ==> spans_contain(prefix[k], #[trigger] prefix[i]),
{
    let q = prefix.push(d);
    assert forall|i: int| k < i < prefix.len() implies spans_contain(prefix[k], #[trigger] prefix[i]) by {
        assert(q[k] == prefix[k] && q[i] == prefix[i] && q[prefix.len() as int] == d);
        assert(def_before(q[k], q[i]));
        assert(def_before(q[i], q[prefix.len() as int]));
    }
}

/// A definition that no earlier one contains, and that contains all later
/// ones, is the last top-level definition of the nesting.
proof fn lemma_last_top(p: Seq<DefView>, k: int)
    requires
        0 <= k < p.len(),
        forall|i: int| 0 <= i < k ==> !spans_contain(#[trigger] p[i], p[k]),
        forall|i: int| k < i < p.len() ==> spans_contain(p[k], #[trigger] p[i]),
    ensures
        nest(p).len() > 0,
        nest(p).last().def == p[k],
    decreases p.len(),
{
    let r = p.drop_last();
    if k == p.len() - 1 {
        lemma_nest_from_input(r);
        if nest(r).len() > 0 && spans_contain(nest(r).last().def, p[k]) {
            assert(r.contains(nest(r)[nest(r).len() - 1].def));
            let i = choose|i: int| 0 <= i < r.len() && r[i] == nest(r).last().def;
            assert(p[i] == r[i]);
        }
    } else {
        assert forall|i: int| 0 <= i < k implies !spans_contain(#[trigger] r[i], r[k]) by {
            assert(r[i] == p[i] && r[k] == p[k]);
        }
        assert forall|i: int| k < i < r.len() implies spans_contain(r[k], #[trigger] r[i]) by {
            assert(r[i] == p[i] && r[k] == p[k]);
        }
        lemma_last_top(r, k);
        assert(p.last() == p[p.len() - 1]);
    }
}

/// Under a class that is the last top-level definition, a definition kept
/// as a child or inside one, that contains all later definitions, lies
/// inside the last kept child.
proof fn lemma_last_child(p: Seq<DefView>, k: int, km: int)
    requires
        0 <= k < km < p.len(),
        p[k].kind == ChunkKind::Class,
        forall|i: int| 0 <= i < k ==> !spans_contain(#[trigger] p[i], p[k]),
        forall|i: int| k < i < p.len() ==> spans_contain(p[k], #[trigger] p[i]),
        forall|i: int| km < i < p.len() ==> spans_contain(p[km], #[trigger] p[i]),
    ensures
        nest(p).len() > 0,
        nest(p).last().def == p[k],
        nest(p).last().children.len() > 0,
        spans_contain(nest(p).last().children.last(), p[km]),
    decreases p.len(),
{
    let r = p.drop_last();
    lemma_last_top(p, k);
    assert forall|i: int| 0 <= i < k implies !spans_contain(#[trigger] r[i], r[k]) by {
        assert(r[i] == p[i] && r[k] == p[k]);
    }
    assert forall|i: int| k < i < r.len() implies spans_contain(r[k], #[trigger] r[i]) by {
        assert(r[i] == p[i] && r[k] == p[k]);
    }
    lemma_last_top(r, k);
    assert(p.last() == p[p.len() - 1]);
    if km < p.len() - 1 {
        assert forall|i: int| km < i < r.len() implies spans_contain(r[km], #[trigger] r[i]) by {
            assert(r[i] == p[i] && r[km] == p[km]);
        }
        lemma_last_child(r, k, km);
        assert(spans_contain(p[km], p[p.len() - 1]));
    }
}

/// A non-empty definition nested in a function, or in a method of a class,
/// adds no chunk when it is inserted at its place among definitions ordered
/// outer before inner whose spans nest or are disjoint: it lies inside a
/// definition `prefix[k]` that no earlier one contains and that is not a
/// class, or inside a definition `prefix[km]` that lies inside such a class
/// `prefix[k]`.
pub proof fn lemma_inserted_nested_definition_adds_nothing(
    path: Seq<char>,
    language: Language,
    b: Seq<u8>,
    prefix: Seq<DefView>,
    d: DefView,
    suffix: Seq<DefView>,
    k: int,
    km: int,
)
    requires
        defs_ordered(prefix.push(d)),
        laminar(prefix.push(d)),
        d.start_byte < d.end_byte,
        0 <= k < prefix.len(),
        forall|i: int| 0 <= i < k ==> !spans_contain(#[trigger] prefix[i], prefix[k]),
        spans_contain(prefix[k], d),
        prefix[k].kind == ChunkKind::Class ==> k < km < prefix.len() && spans_contain(prefix[k], prefix[km])
            && spans_contain(prefix[km], d),
    ensures
        assembled(path, language, b, prefix.push(d) + suffix) == assembled(path, language, b, prefix + suffix),
{
    lemma_between_inside(prefix, d, k);
    lemma_last_top(prefix, k);
    if prefix[k].kind == ChunkKind::Class {
        lemma_between_inside(prefix, d, km);
        lemma_last_child(prefix, k, km);
    }
    lemma_nested_definition_adds_nothing(path, language, b, prefix, d, suffix);
}

/// A class of at most `MAX_CHUNK_LINES` lines is one chunk: its whole span,
/// with no chunks of its own for its methods.
pub proof fn lemma_small_class_one_chunk(path: Seq<char>, language: Language, b: Seq<u8>, t: TreeView)
    requires
        t.def.kind == ChunkKind::Class,
        t.def.start_line <= t.def.end_line,
        t.def.end_line - t.def.start_line + 1 <= MAX_CHUNK_LINES,
    ensures
        tree_chunks(path, language, b, t) == seq![
            chunk_at(path, language, b, ChunkKind::Class, Some(t.def.name), t.def.start_line, t.def.end_line),
        ],
{
    let s = t.def.start_line;
    let e = t.def.end_line;
    assert(windows(s, e) == seq![(s, e)] + windows(e + 1, e));
    assert(windows(e + 1, e) =~= Seq::<(int, int)>::empty());
    assert(windows(s, e) =~= seq![(s, e)]);
    assert(split_views(path, language, b, ChunkKind::Class, Some(t.def.name), s, e) =~= seq![
        chunk_at(path, language, b, ChunkKind::Class, Some(t.def.name), s, e),
    ]);
}

/// A non-empty span's first chunk is the chunk of its first window.
proof fn lemma_split_first(
    path: Seq<char>,
    language: Language,
    b: Seq<u8>,
    kind: ChunkKind,
    name: Option<Seq<char>>,
    start: int,
    end: int,
)
    requires
        start <= end,
    ensures
        split_views(path, language, b, kind, name, start, end).len() > 0,
        split_views(path, language, b, kind, name, start, end)[0] == chunk_at(
            path,
            language,
            b,
            kind,
            name,
            start,
            windows(start, end)[0].1,
        ),
{
    crate::chunk::lemma_split_step(path, language, b, kind, name, start, end);
    let we = if end - start < MAX_CHUNK_LINES - 1 {
        end
    } else {
        start + MAX_CHUNK_LINES - 1
    };
    assert(windows(start, end) == seq![(start, we)] + windows(we + 1, end));
    assert(windows(start, end)[0] == (start, we));
}

/// The chunks of each top-level definition are among the definition chunks.
proof fn lemma_def_chunks_has(path: Seq<char>, language: Language, b: Seq<u8>, ts: Seq<TreeView>, i: int)
    requires
        0 <= i < ts.len(),
    ensures
        forall|k: int|
            0 <= k < tree_chunks(path, language, b, ts[i]).len() ==> def_chunks(path, language, b, ts).contains(
                #[trigger] tree_chunks(path, language, b, ts[i])[k],
            ),
    decreases ts.len(),
{
    let init = def_chunks(path, language, b, ts.drop_last());
    let last = tree_chunks(path, language, b, ts.last());
    let all = def_chunks(path, language, b, ts);
    assert(all == init + last);
    let tc = tree_chunks(path, language, b, ts[i]);
    if i == ts.len() - 1 {
        assert forall|k: int| 0 <= k < tc.len() implies all.contains(#[trigger] tc[k]) by {
            assert(all[init.len() + k] == last[k]);
        }
    } else {
        lemma_def_chunks_has(path, language, b, ts.drop_last(), i);
        assert(ts.drop_last()[i] == ts[i]);
        assert forall|k: int| 0 <= k < tc.len() implies all.contains(#[trigger] tc[k]) by {
            let m = choose|m: int| 0 <= m < init.len() && init[m] == tc[k];
            assert(all[m] == init[m]);
        }
    }
}

/// The chunks of each kept child of a split class are among the children's
/// chunks.
proof fn lemma_children_chunks_has(
    path: Seq<char>,
    language: Language,
    b: Seq<u8>,
    parent: Seq<char>,
    cs: Seq<DefView>,
    j: int,
)
    requires
        0 <= j < cs.len(),
    ensures
        forall|k: int|
            0 <= k < split_views(
                path,
                language,
                b,
                cs[j].kind,
                Some(qualified(parent, cs[j].name)),
                cs[j].start_line,
                cs[j].end_line,
            ).len() ==> children_chunks(path, language, b, parent, cs).contains(
                #[trigger] split_views(
                    path,
                    language,
                    b,
                    cs[j].kind,
                    Some(qualified(parent, cs[j].name)),
                    cs[j].start_line,
                    cs[j].end_line,
                )[k],
            ),
    decreases cs.len(),
{
    let c = cs[j];
    let sv = split_views(path, language, b, c.kind, Some(qualified(parent, c.name)), c.start_line, c.end_line);
    let init = children_chunks(path, language, b, parent, cs.drop_last());
    let all = children_chunks(path, language, b, parent, cs);
    if j == cs.len() - 1 {
        assert(all == init + sv);
        assert forall|k: int| 0 <= k < sv.len() implies all.contains(#[trigger] sv[k]) by {
            assert(all[init.len() + k] == sv[k]);
        }
    } else {
        lemma_children_chunks_has(path, language, b, parent, cs.drop_last(), j);
        assert(cs.drop_last()[j] == c);
        let l = cs.last();
        let tail = split_views(path, language, b, l.kind, Some(qualified(parent, l.name)), l.start_line, l.end_line);
        assert(all == init + tail);
        assert forall|k: int| 0 <= k < sv.len() implies all.contains(#[trigger] sv[k]) by {
            let m = choose|m: int| 0 <= m < init.len() && init[m] == sv[k];
            assert(all[m] == init[m]);
        }
    }
}

/// The chunks of top-level definition `i` of the nesting of `defs` are
/// among the assembled chunks: the chunk of the first window of its span,
/// under its own name and kind; for a split class, the header chunk (when
/// lines are left before its first method) and a chunk named
/// `Class.method` for each of its methods.
pub open spec fn definition_chunked(path: Seq<char>, language: Language, b: Seq<u8>, defs: Seq<DefView>, i: int) -> bool {
    let t = nest(defs)[i];
    let r = assembled(path, language, b, defs);
    &&& !splits_class(t) ==> r.contains(
        chunk_at(
            path,
            language,
            b,
            t.def.kind,
            Some(t.def.name),
            t.def.start_line,
            windows(t.def.start_line, t.def.end_line)[0].1,
        ),
    )
    &&& splits_class(t) && header_end(t) >= t.def.start_line ==> r.contains(
        chunk_at(
            path,
            language,
            b,
            ChunkKind::Class,
            Some(t.def.name),
            t.def.start_line,
            windows(t.def.start_line, header_end(t))[0].1,
        ),
    )
    &&& splits_class(t) ==> forall|j: int|
        0 <= j < t.children.len() ==> r.contains(
            chunk_at(
                path,
                language,
                b,
                (#[trigger] t.children[j]).kind,
                Some(qualified(t.def.name, t.children[j].name)),
                t.children[j].start_line,
                windows(t.children[j].start_line, t.children[j].end_line)[0].1,
            ),
        )
}

/// Every top-level definition becomes a chunk, under its own name and
/// kind, starting at its first line; a split class gives a header chunk
/// (when lines are left before its first method) and a chunk named
/// `Class.method` for each of its methods.
pub proof fn lemma_definitions_become_chunks(
    path: Seq<char>,
    language: Language,
    b: Seq<u8>,
    defs: Seq<DefView>,
    i: int,
)
    requires
        defs_fit(defs, line_count(b)),
        0 <= i < nest(defs).len(),
    ensures
        definition_chunked(path, language, b, defs, i),
{
    let ts = nest(defs);
    let t = ts[i];
    let count = line_count(b);
    let dc = def_chunks(path, language, b, ts);
    let parts = dc + module_chunks(path, language, b, gap_runs(ts, count, 1, None));
    let r = assembled(path, language, b, defs);
    lemma_nest_fits(defs, count);
    lemma_assembled_members(path, language, b, defs);
    lemma_def_chunks_has(path, language, b, ts, i);
    let tc = tree_chunks(path, language, b, t);
    assert(1 <= t.def.start_line <= t.def.end_line <= count);
    assert forall|k: int| 0 <= k < tc.len() implies r.contains(#[trigger] tc[k]) by {
        let m = choose|m: int| 0 <= m < dc.len() && dc[m] == tc[k];
        assert(parts[m] == dc[m]);
    }
    if !splits_class(t) {
        lemma_split_first(path, language, b, t.def.kind, Some(t.def.name), t.def.start_line, t.def.end_line);
    } else {
        let hs = if header_end(t) >= t.def.start_line {
            split_views(path, language, b, ChunkKind::Class, Some(t.def.name), t.def.start_line, header_end(t))
        } else {
            seq![]
        };
        let cc = children_chunks(path, language, b, t.def.name, t.children);
        assert(tc == hs + cc);
        if header_end(t) >= t.def.start_line {
            lemma_split_first(path, language, b, ChunkKind::Class, Some(t.def.name), t.def.start_line, header_end(t));
            assert(tc[0] == hs[0]);
        }
        assert forall|j: int| 0 <= j < t.children.len() implies r.contains(
            chunk_at(
                path,
                language,
                b,
                (#[trigger] t.children[j]).kind,
                Some(qualified(t.def.name, t.children[j].name)),
                t.children[j].start_line,
                windows(t.children[j].start_line, t.children[j].end_line)[0].1,
            ),
        ) by {
            let c = t.children[j];
            assert(1 <= c.start_line <= c.end_line);
            lemma_split_first(path, language, b, c.kind, Some(qualified(t.def.name, c.name)), c.start_line, c.end_line);
            lemma_children_chunks_has(path, language, b, t.def.name, t.children, j);
            let sv = split_views(path, language, b, c.kind, Some(qualified(t.def.name, c.name)), c.start_line, c.end_line);
            assert(cc.contains(sv[0]));
            let m = choose|m: int| 0 <= m < cc.len() && cc[m] == sv[0];
            assert(tc[hs.len() + m] == cc[m]);
        }
    }
}

/// A file whose lines are all blank has no module chunks: with no
/// definitions, it has no chunks at all.
pub proof fn lemma_blank_file(path: Seq<char>, language: Language, b: Seq<u8>, defs: Seq<DefView>)
    requires
        forall|l: int| 1 <= l <= line_count(b) ==> line_blank(b, l),
    ensures
        module_chunks(path, language, b, gap_runs(nest(defs), line_count(b), 1, None)).len() == 0,
        defs.len() == 0 ==> assembled(path, language, b, defs).len() == 0,
{
    let ts = nest(defs);
    let count = line_count(b);
    if count >= 0 {
        lemma_gap_runs(ts, count, 1, None);
    }
    lemma_no_module_chunks_when_blank(path, language, b, gap_runs(ts, count, 1, None));
    if defs.len() == 0 {
        assert(ts =~= Seq::<TreeView>::empty());
        assert(def_chunks(path, language, b, ts) =~= Seq::<ChunkView>::empty());
        let parts = def_chunks(path, language, b, ts) + module_chunks(path, language, b, gap_runs(ts, count, 1, None));
        assert(parts =~= Seq::<ChunkView>::empty());
        lemma_sort_by_span(parts);
        vstd::seq_lib::to_multiset_len(parts);
        vstd::seq_lib::to_multiset_len(assembled(path, language, b, defs));
    }
}

proof fn lemma_no_module_chunks_when_blank(path: Seq<char>, language: Language, b: Seq<u8>, gaps: Seq<(int, int)>)
    requires
        forall|i: int|
            0 <= i < gaps.len() ==> 1 <= (#[trigger] gaps[i]).0 && gaps[i].1 <= line_count(b),
        forall|l: int| 1 <= l <= line_count(b) ==> line_blank(b, l),
    ensures
        module_chunks(path, language, b, gaps).len() == 0,
    decreases gaps.len(),
{
    if gaps.len() > 0 {
        let rest = gaps.drop_first();
        assert forall|i: int| 0 <= i < rest.len() implies 1 <= (#[trigger] rest[i]).0 && rest[i].1
            <= line_count(b) by {
            assert(rest[i] == gaps[i + 1]);
        }
        lemma_no_module_chunks_when_blank(path, language, b, rest);
        let g = gaps[0];
        if g.0 <= g.1 {
            lemma_trim_start_bounds(b, g.0, g.1);
            let s = trim_start(b, g.0, g.1);
            assert(s == g.1 + 1) by {
                if s <= g.1 {
                    assert(line_blank(b, s));
                }
            }
        }
    }
}

/// Nothing that is not blank is lost: every non-blank line of the file lies
/// in some chunk, unless it lies inside a class that is split into header
/// and methods (whose lines between methods are dropped). A line inside no
/// top-level definition lies in a module chunk.
pub proof fn lemma_nonblank_lines_chunked(
    path: Seq<char>,
    language: Language,
    b: Seq<u8>,
    defs: Seq<DefView>,
    l: int,
)
    requires
        defs_fit(defs, line_count(b)),
        1 <= l <= line_count(b),
        !line_blank(b, l),
        forall|i: int|
            0 <= i < nest(defs).len() && (#[trigger] nest(defs)[i]).def.start_line <= l
                <= nest(defs)[i].def.end_line ==> !splits_class(nest(defs)[i]),
    ensures
        exists|c: int|
            0 <= c < assembled(path, language, b, defs).len() && (#[trigger] assembled(
                path,
                language,
                b,
                defs,
            )[c]).start_line <= l <= assembled(path, language, b, defs)[c].end_line,
        (forall|i: int|
            0 <= i < nest(defs).len() ==> !((#[trigger] nest(defs)[i]).def.start_line <= l
                <= nest(defs)[i].def.end_line)) ==> exists|c: int|
            0 <= c < assembled(path, language, b, defs).len() && (#[trigger] assembled(
                path,
                language,
                b,
                defs,
            )[c]).kind == ChunkKind::Module && assembled(path, language, b, defs)[c].start_line <= l
                <= assembled(path, language, b, defs)[c].end_line,
{
    let ts = nest(defs);
    let r = assembled(path, language, b, defs);
    let dc = def_chunks(path, language, b, ts);
    let parts = dc + module_chunks(path, language, b, gap_runs(ts, line_count(b), 1, None));
    lemma_assembled_members(path, language, b, defs);
    lemma_nest_fits(defs, line_count(b));
    if exists|i: int| 0 <= i < ts.len() && (#[trigger] ts[i]).def.start_line <= l <= ts[i].def.end_line {
        let i = choose|i: int| 0 <= i < ts.len() && (#[trigger] ts[i]).def.start_line <= l <= ts[i].def.end_line;
        let t = ts[i];
        assert(!splits_class(t));
        let sv = split_views(path, language, b, t.def.kind, Some(t.def.name), t.def.start_line, t.def.end_line);
        assert(tree_chunks(path, language, b, t) == sv);
        lemma_windows_cover(t.def.start_line, t.def.end_line, l);
        let w = windows(t.def.start_line, t.def.end_line);
        let wi = choose|wi: int| 0 <= wi < w.len() && (#[trigger] w[wi]).0 <= l <= w[wi].1;
        assert(sv[wi].start_line == w[wi].0 && sv[wi].end_line == w[wi].1);
        lemma_def_chunks_has(path, language, b, ts, i);
        assert(dc.contains(sv[wi]));
        let m = choose|m: int| 0 <= m < dc.len() && dc[m] == sv[wi];
        assert(parts[m] == dc[m]);
        assert(r.contains(parts[m]));
        let c = choose|c: int| 0 <= c < r.len() && r[c] == parts[m];
        assert(r[c].start_line <= l <= r[c].end_line);
    } else {
        assert(!is_covered(ts, l));
        lemma_uncovered_lines_in_module_chunks(path, language, b, defs, l);
    }
}

/// Module chunks hold only code outside the definitions: no line of a
/// module chunk lies between the first and last line of a top-level
/// definition, and a module chunk has no name.
pub proof fn lemma_module_chunks_outside_definitions(
    path: Seq<char>,
    language: Language,
    b: Seq<u8>,
    defs: Seq<DefView>,
    c: int,
    k: int,
)
    requires
        defs_fit(defs, line_count(b)),
        no_module_defs(defs),
        0 <= c < assembled(path, language, b, defs).len(),
        assembled(path, language, b, defs)[c].kind == ChunkKind::Module,
        assembled(path, language, b, defs)[c].start_line <= k <= assembled(path, language, b, defs)[c].end_line,
    ensures
        assembled(path, language, b, defs)[c].name is None,
        forall|i: int|
            0 <= i < nest(defs).len() ==> !((#[trigger] nest(defs)[i]).def.start_line <= k
                <= nest(defs)[i].def.end_line),
{
    lemma_assembled_chunks(path, language, b, defs);
    assert(!is_covered(nest(defs), k));
}

} // verus!
