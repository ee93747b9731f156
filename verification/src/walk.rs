//! Selection of the source files worth chunking, from the entries that a
//! repository walk (one that respects ignore files) found.
use vstd::prelude::*;
use vstd::string::StringSliceAdditionalSpecFns;
use vstd::string::StringExecFns;
use std::path::PathBuf;
use crate::language::{LanguageConfig, config_for_path, is_registered, path_language};

verus! {

/// Files larger than this are skipped: generated bundles and vendored
/// blobs, not code anyone wants retrieved.
pub const MAX_FILE_BYTES: u64 = 1024 * 1024;

/// One entry that the walk found.
pub struct WalkEntry {
    /// Path components relative to the walk root.
    pub components: Vec<String>,
    /// The full path as text, for the extension.
    pub path: String,
    /// Path usable for reading the file.
    pub abs_path: PathBuf,
    /// The entry is a regular file.
    pub is_file: bool,
    /// Size in bytes; `None` if its metadata could not be read.
    pub size: Option<u64>,
}

/// A source file selected for chunking.
pub struct SourceFile {
    /// Path relative to the walk root, `/`-separated on every platform so
    /// index contents and output are portable.
    pub rel_path: String,
    /// Path usable for reading the file.
    pub abs_path: PathBuf,
    pub config: LanguageConfig,
}

/// Components joined with `sep` between them.
pub open spec fn join(parts: Seq<Seq<char>>, sep: Seq<char>) -> Seq<char>
    decreases parts.len(),
{
    if parts.len() == 0 {
        seq![]
    } else if parts.len() == 1 {
        parts[0]
    } else {
        join(parts.drop_last(), sep) + sep + parts.last()
    }
}

pub open spec fn component_views(v: Seq<String>) -> Seq<Seq<char>> {
    v.map_values(|c: String| c@)
}

/// The entry is selected: a regular file of a registered language whose
/// size is known and at most `MAX_FILE_BYTES`.
pub open spec fn selected(e: WalkEntry) -> bool {
    &&& e.is_file
    &&& path_language(vstd::utf8::encode_utf8(e.path@)) is Some
    &&& e.size matches Some(n) && n <= MAX_FILE_BYTES
}

/// What a selected file is, as values.
pub struct SourceFileView {
    pub rel_path: Seq<char>,
    pub abs_path: PathBuf,
    pub language: crate::language::Language,
}

pub open spec fn file_view(f: SourceFile) -> SourceFileView {
    SourceFileView { rel_path: f.rel_path@, abs_path: f.abs_path, language: f.config.language }
}

pub open spec fn file_views(v: Seq<SourceFile>) -> Seq<SourceFileView> {
    v.map_values(|f: SourceFile| file_view(f))
}

/// The file that a selected entry becomes.
pub open spec fn entry_file(e: WalkEntry) -> SourceFileView {
    SourceFileView {
        rel_path: join(component_views(e.components@), "/"@),
        abs_path: e.abs_path,
        language: path_language(vstd::utf8::encode_utf8(e.path@)).unwrap(),
    }
}

/// The files of the selected entries, in walk order.
pub open spec fn selected_files(entries: Seq<WalkEntry>) -> Seq<SourceFileView>
    decreases entries.len(),
{
    if entries.len() == 0 {
        seq![]
    } else {
        let rest = selected_files(entries.drop_first());
        if selected(entries[0]) {
            seq![entry_file(entries[0])] + rest
        } else {
            rest
        }
    }
}

/// Byte-wise lexicographic order of strings, which is `String`'s `Ord`.
pub open spec fn bytes_le(a: Seq<u8>, b: Seq<u8>) -> bool
    decreases a.len(),
{
    if a.len() == 0 {
        true
    } else if b.len() == 0 {
        false
    } else if a[0] != b[0] {
        a[0] < b[0]
    } else {
        bytes_le(a.drop_first(), b.drop_first())
    }
}

pub open spec fn path_le(a: SourceFileView, b: SourceFileView) -> bool {
    bytes_le(vstd::utf8::encode_utf8(a.rel_path), vstd::utf8::encode_utf8(b.rel_path))
}

/// Insert `x` in front of the first file that it sorts no later than.
pub open spec fn insert_by_path(t: Seq<SourceFileView>, x: SourceFileView) -> Seq<SourceFileView>
    decreases t.len(),
{
    if t.len() == 0 || path_le(x, t[0]) {
        seq![x] + t
    } else {
        seq![t[0]] + insert_by_path(t.drop_first(), x)
    }
}

/// Stable sort of files by relative path.
pub open spec fn sort_by_path(s: Seq<SourceFileView>) -> Seq<SourceFileView>
    decreases s.len(),
{
    if s.len() == 0 {
        s
    } else {
        insert_by_path(sort_by_path(s.drop_first()), s[0])
    }
}

fn join_components(parts: &Vec<String>) -> (res: String)
    ensures
        res@ == join(component_views(parts@), "/"@),
{
    let ghost cv = component_views(parts@);
    let mut res = String::new();
    let mut i: usize = 0;
    while i < parts.len()
        invariant
            cv == component_views(parts@),
            i <= parts@.len(),
            res@ == join(cv.take(i as int), "/"@),
        decreases parts@.len() - i,
    {
        assert(cv.take(i + 1).drop_last() == cv.take(i as int));
        assert(cv.take(i + 1).last() == parts@[i as int]@);
        if i > 0 {
            res.append("/");
        } else {
            assert(join(cv.take(0), "/"@) =~= Seq::<char>::empty());
            assert(Seq::<char>::empty() + parts@[0]@ =~= parts@[0]@);
        }
        res.append(parts[i].as_str());
        i = i + 1;
    }
    assert(cv.take(parts@.len() as int) =~= cv);
    res
}

fn bytes_le_exec(a: &[u8], b: &[u8]) -> (res: bool)
    ensures
        res == bytes_le(a@, b@),
{
    let mut i: usize = 0;
    assert(a@.skip(0) =~= a@);
    assert(b@.skip(0) =~= b@);
    loop
        invariant
            i <= a@.len(),
            i <= b@.len(),
            bytes_le(a@, b@) == bytes_le(a@.skip(i as int), b@.skip(i as int)),
        decreases a@.len() - i,
    {
        if i == a.len() {
            return true;
        }
        if i == b.len() {
            return false;
        }
        if a[i] != b[i] {
            return a[i] < b[i];
        }
        assert(a@.skip(i as int).drop_first() =~= a@.skip(i + 1));
        assert(b@.skip(i as int).drop_first() =~= b@.skip(i + 1));
        i = i + 1;
    }
}

proof fn lemma_insert_path_at(t: Seq<SourceFileView>, x: SourceFileView, p: int)
    requires
        0 <= p <= t.len(),
        forall|q: int| 0 <= q < p ==> !path_le(x, #[trigger] t[q]),
        p < t.len() ==> path_le(x, t[p]),
    ensures
        insert_by_path(t, x) == t.insert(p, x),
    decreases p,
{
    if p == 0 {
        assert(insert_by_path(t, x) =~= t.insert(p, x));
    } else {
        let r = t.drop_first();
        assert forall|q: int| 0 <= q < p - 1 implies !path_le(x, #[trigger] r[q]) by {
            assert(r[q] == t[q + 1]);
        }
        if p - 1 < r.len() {
            assert(r[p - 1] == t[p]);
        }
        lemma_insert_path_at(r, x, p - 1);
        assert(seq![t[0]] + r.insert(p - 1, x) =~= t.insert(p, x));
    }
}

fn sort_files(v: Vec<SourceFile>) -> (res: Vec<SourceFile>)
    requires
        forall|i: int| 0 <= i < v@.len() ==> is_registered(#[trigger] v@[i].config),
    ensures
        file_views(res@) == sort_by_path(file_views(v@)),
        forall|i: int| 0 <= i < res@.len() ==> is_registered(#[trigger] res@[i].config),
{
    let ghost all = file_views(v@);
    let n = v.len();
    let mut rest = v;
    let mut out: Vec<SourceFile> = Vec::new();
    while rest.len() > 0
        invariant
            rest@.len() <= n,
            n == all.len(),
            file_views(rest@) == all.take(rest@.len() as int),
            file_views(out@) == sort_by_path(all.skip(rest@.len() as int)),
            forall|i: int| 0 <= i < rest@.len() ==> is_registered(#[trigger] rest@[i].config),
            forall|i: int| 0 <= i < out@.len() ==> is_registered(#[trigger] out@[i].config),
        decreases rest@.len(),
    {
        let ghost k = rest@.len() - 1;
        let ghost old_rest = rest@;
        let x = rest.pop().unwrap();
        assert(x == old_rest[k]);
        assert(is_registered(x.config));
        let ghost xv = file_view(x);
        assert(all[k] == xv) by {
            assert(all.take(k + 1)[k] == all[k]);
        }
        assert(file_views(rest@) =~= all.take(k));
        assert(all.skip(k).drop_first() =~= all.skip(k + 1));
        assert(all.skip(k)[0] == xv);
        let mut p: usize = 0;
        while p < out.len() && !bytes_le_exec(x.rel_path.as_str().as_bytes(), out[p].rel_path.as_str().as_bytes())
            invariant
                p <= out@.len(),
                xv == file_view(x),
                forall|q: int| 0 <= q < p ==> !path_le(xv, #[trigger] file_views(out@)[q]),
            decreases out@.len() - p,
        {
            p = p + 1;
        }
        proof {
            lemma_insert_path_at(file_views(out@), xv, p as int);
        }
        let ghost before = out@;
        out.insert(p, x);
        assert(file_views(out@) =~= file_views(before).insert(p as int, xv));
        assert forall|i: int| 0 <= i < out@.len() implies is_registered(#[trigger] out@[i].config) by {
            if i < p {
                assert(out@[i] == before[i]);
            } else if i > p {
                assert(out@[i] == before[i - 1]);
            }
        }
    }
    assert(all.skip(0) =~= all);
    out
}

/// Select the source files among the entries of a walk, sorted by relative
/// path so that output is deterministic across platforms.
pub fn select_source_files(entries: Vec<WalkEntry>) -> (res: Vec<SourceFile>)
    ensures
        file_views(res@) == sort_by_path(selected_files(entries@)),
        sorted_by_path(file_views(res@)),
        file_views(res@).to_multiset() == selected_files(entries@).to_multiset(),
        forall|i: int| 0 <= i < res@.len() ==> is_registered(#[trigger] res@[i].config),
{
    let ghost all = entries@;
    let mut rest = entries;
    let mut picked: Vec<SourceFile> = Vec::new();
    // Entries are taken from the back and put in front, keeping walk order.
    while rest.len() > 0
        invariant
            all.len() >= rest@.len(),
            rest@ == all.take(rest@.len() as int),
            file_views(picked@) == selected_files(all.skip(rest@.len() as int)),
            forall|i: int| 0 <= i < picked@.len() ==> is_registered(#[trigger] picked@[i].config),
        decreases rest@.len(),
    {
        let ghost k = rest@.len() - 1;
        let e = rest.pop().unwrap();
        assert(all[k] == e) by {
            assert(all.take(k + 1)[k] == all[k]);
        }
        assert(rest@ =~= all.take(k));
        assert(all.skip(k).drop_first() =~= all.skip(k + 1));
        assert(all.skip(k)[0] == e);
        let ghost before = picked@;
        if e.is_file {
            match config_for_path(e.path.as_str()) {
                Some(config) => {
                    match e.size {
                        Some(n) => {
                            if n <= MAX_FILE_BYTES {
                                let rel_path = join_components(&e.components);
                                picked.insert(0, SourceFile { rel_path, abs_path: e.abs_path, config });
                                assert(file_views(picked@) =~= seq![entry_file(e)] + file_views(before));
                                assert forall|i: int| 0 <= i < picked@.len() implies is_registered(
                                    #[trigger] picked@[i].config,
                                ) by {
                                    if i > 0 {
                                        assert(picked@[i] == before[i - 1]);
                                    }
                                }
                            }
                        },
                        None => {},
                    }
                },
                None => {},
            }
        }
    }
    assert(all.skip(0) =~= all);
    proof {
        lemma_sort_by_path(selected_files(all));
    }
    sort_files(picked)
}

proof fn lemma_bytes_le_total(a: Seq<u8>, b: Seq<u8>)
    ensures
        bytes_le(a, b) || bytes_le(b, a),
    decreases a.len(),
{
    if a.len() > 0 && b.len() > 0 && a[0] == b[0] {
        lemma_bytes_le_total(a.drop_first(), b.drop_first());
    }
}

proof fn lemma_bytes_le_trans(a: Seq<u8>, b: Seq<u8>, c: Seq<u8>)
    requires
        bytes_le(a, b),
        bytes_le(b, c),
    ensures
        bytes_le(a, c),
    decreases a.len(),
{
    if a.len() > 0 && b.len() > 0 && c.len() > 0 && a[0] == b[0] && b[0] == c[0] {
        lemma_bytes_le_trans(a.drop_first(), b.drop_first(), c.drop_first());
    }
}


/// The number of files of a language among the first `n`.
pub open spec fn count_language(files: Seq<SourceFileView>, language: crate::language::Language, n: int) -> nat
    decreases n,
{
    if n <= 0 {
        0
    } else {
        count_language(files, language, n - 1) + if files[n - 1].language == language {
            1nat
        } else {
            0nat
        }
    }
}

/// The languages that some of `files` are of, by name in order (`tsx`
/// before `typescript`), each with how many files are of it.
pub open spec fn language_tally(files: Seq<SourceFileView>) -> Seq<(Seq<char>, nat)> {
    let tsx = count_language(files, crate::language::Language::Tsx, files.len() as int);
    let ts = count_language(files, crate::language::Language::TypeScript, files.len() as int);
    (if tsx > 0 {
        seq![("tsx"@, tsx)]
    } else {
        seq![]
    }) + (if ts > 0 {
        seq![("typescript"@, ts)]
    } else {
        seq![]
    })
}

/// How many of the files are of each language, for the languages that
/// occur, by name in order.
pub fn files_per_language(files: &Vec<SourceFile>) -> (res: Vec<(&'static str, usize)>)
    ensures
        res@.map_values(|p: (&'static str, usize)| (p.0@, p.1 as nat)) == language_tally(file_views(files@)),
{
    let ghost fv = file_views(files@);
    let mut tsx: usize = 0;
    let mut ts: usize = 0;
    let mut i: usize = 0;
    while i < files.len()
        invariant
            fv == file_views(files@),
            i <= files@.len(),
            tsx == count_language(fv, crate::language::Language::Tsx, i as int),
            ts == count_language(fv, crate::language::Language::TypeScript, i as int),
            tsx + ts <= i,
        decreases files@.len() - i,
    {
        assert(fv[i as int].language == files@[i as int].config.language);
        match files[i].config.language {
            crate::language::Language::Tsx => {
                tsx = tsx + 1;
            },
            crate::language::Language::TypeScript => {
                ts = ts + 1;
            },
        }
        i = i + 1;
    }
    let mut res: Vec<(&'static str, usize)> = Vec::new();
    if tsx > 0 {
        res.push((crate::language::Language::Tsx.name(), tsx));
    }
    if ts > 0 {
        res.push((crate::language::Language::TypeScript.name(), ts));
    }
    assert(res@.map_values(|p: (&'static str, usize)| (p.0@, p.1 as nat)) =~= language_tally(fv));
    res
}

/// Ordered by relative path.
pub open spec fn sorted_by_path(s: Seq<SourceFileView>) -> bool {
    forall|i: int, j: int| 0 <= i < j < s.len() ==> path_le(#[trigger] s[i], #[trigger] s[j])
}

proof fn lemma_insert_path_is_insert(t: Seq<SourceFileView>, x: SourceFileView)
    ensures
        exists|p: int| 0 <= p <= t.len() && insert_by_path(t, x) == t.insert(p, x),
    decreases t.len(),
{
    if t.len() == 0 || path_le(x, t[0]) {
        assert(insert_by_path(t, x) =~= t.insert(0, x));
    } else {
        let r = t.drop_first();
        lemma_insert_path_is_insert(r, x);
        let p = choose|p: int| 0 <= p <= r.len() && insert_by_path(r, x) == r.insert(p, x);
        assert(seq![t[0]] + r.insert(p, x) =~= t.insert(p + 1, x));
    }
}

proof fn lemma_insert_path_sorted(t: Seq<SourceFileView>, x: SourceFileView)
    requires
        sorted_by_path(t),
    ensures
        sorted_by_path(insert_by_path(t, x)),
    decreases t.len(),
{
    let r = insert_by_path(t, x);
    if t.len() == 0 {
    } else if path_le(x, t[0]) {
        assert(r == seq![x] + t);
        assert forall|i: int, j: int| 0 <= i < j < r.len() implies path_le(#[trigger] r[i], #[trigger] r[j]) by {
            if i == 0 {
                assert(r[j] == t[j - 1]);
                if j > 1 {
                    lemma_bytes_le_trans(
                        vstd::utf8::encode_utf8(x.rel_path),
                        vstd::utf8::encode_utf8(t[0].rel_path),
                        vstd::utf8::encode_utf8(t[j - 1].rel_path),
                    );
                }
            } else {
                assert(r[i] == t[i - 1] && r[j] == t[j - 1]);
            }
        }
    } else {
        let rest = t.drop_first();
        assert forall|i: int, j: int| 0 <= i < j < rest.len() implies path_le(#[trigger] rest[i], #[trigger] rest[j]) by {
            assert(rest[i] == t[i + 1] && rest[j] == t[j + 1]);
        }
        lemma_insert_path_sorted(rest, x);
        lemma_insert_path_is_insert(rest, x);
        lemma_bytes_le_total(vstd::utf8::encode_utf8(x.rel_path), vstd::utf8::encode_utf8(t[0].rel_path));
        let ir = insert_by_path(rest, x);
        let p = choose|p: int| 0 <= p <= rest.len() && ir == rest.insert(p, x);
        assert(r == seq![t[0]] + ir);
        assert forall|k: int| 0 <= k < ir.len() implies path_le(t[0], #[trigger] ir[k]) by {
            if k < p {
                assert(ir[k] == rest[k] && rest[k] == t[k + 1]);
            } else if k > p {
                assert(ir[k] == rest[k - 1] && rest[k - 1] == t[k]);
            } else {
                assert(ir[k] == x);
            }
        }
        assert forall|i: int, j: int| 0 <= i < j < r.len() implies path_le(#[trigger] r[i], #[trigger] r[j]) by {
            if i == 0 {
                assert(r[j] == ir[j - 1]);
            } else {
                assert(r[i] == ir[i - 1] && r[j] == ir[j - 1]);
            }
        }
    }
}

/// Sorting files orders them by relative path (byte-wise, as `String`
/// compares) and neither loses nor duplicates any.
pub proof fn lemma_sort_by_path(s: Seq<SourceFileView>)
    ensures
        sorted_by_path(sort_by_path(s)),
        sort_by_path(s).to_multiset() == s.to_multiset(),
    decreases s.len(),
{
    broadcast use vstd::seq_lib::group_to_multiset_ensures;

    if s.len() > 0 {
        let r = s.drop_first();
        lemma_sort_by_path(r);
        let t = sort_by_path(r);
        lemma_insert_path_sorted(t, s[0]);
        lemma_insert_path_is_insert(t, s[0]);
        let p = choose|p: int| 0 <= p <= t.len() && insert_by_path(t, s[0]) == t.insert(p, s[0]);
        assert(s == r.insert(0, s[0]));
        assert(sort_by_path(s).to_multiset() == t.to_multiset().insert(s[0]));
        assert(s.to_multiset() == r.to_multiset().insert(s[0]));
    }
}

} // verus!
