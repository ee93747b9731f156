//! The language layer. Adding a language means: add the grammar crate and
//! its grammar to `sitter`, add one module here that builds its
//! `LanguageConfig` (file extensions and a tree-sitter chunk query), and
//! list it in `registry`, in `Language` and in `grammar_of`.
//!
//! Everything else (walking, chunking) is language-agnostic and driven by
//! the config.
pub mod typescript;

use vstd::prelude::*;
use vstd::string::StringSliceAdditionalSpecFns;
use vstd::utf8::encode_utf8;
use crate::sitter::{ChunkQuery, Grammar, compile_query, query_compiles, tsx_grammar, typescript_grammar};
use crate::chunk::ChunkKind;
use crate::error::Error;

verus! {

/// Languages that can be chunked. TSX has its own variant because its
/// grammar is a separate one (JSX changes the parse).
#[derive(Debug, Clone, Copy, PartialEq, Eq, Hash, Structural)]
pub enum Language {
    TypeScript,
    Tsx,
}

/// The lowercase name of a language.
pub open spec fn language_name(language: Language) -> Seq<char> {
    match language {
        Language::TypeScript => "typescript"@,
        Language::Tsx => "tsx"@,
    }
}

impl Language {
    pub fn name(self) -> (res: &'static str)
        ensures
            res@ == language_name(self),
    {
        match self {
            Language::TypeScript => "typescript",
            Language::Tsx => "tsx",
        }
    }
}

/// Everything the chunker needs to know about one language. Its grammar is
/// the one registered for `language` (see `grammar_of`).
pub struct LanguageConfig {
    pub language: Language,
    /// Lowercase file extensions, without the dot.
    pub extensions: &'static [&'static str],
    /// A tree-sitter query whose patterns each capture one definition as
    /// `@definition` and its identifier as `@name`. This query is the
    /// per-language chunking rule set.
    pub chunk_query: &'static str,
}

/// The grammar of a language.
pub fn grammar_of(language: Language) -> (res: Grammar)
    ensures
        res@ == language,
{
    match language {
        Language::TypeScript => typescript_grammar(),
        Language::Tsx => tsx_grammar(),
    }
}

impl LanguageConfig {
    pub fn new(language: Language, extensions: &'static [&'static str], chunk_query: &'static str) -> (res: Self)
        ensures
            res.language == language,
            res.extensions == extensions,
            res.chunk_query == chunk_query,
    {
        LanguageConfig { language, extensions, chunk_query }
    }

    /// The grammar in the form tree-sitter's runtime API wants.
    pub fn ts_language(&self) -> (res: Grammar)
        ensures
            res@ == self.language,
    {
        grammar_of(self.language)
    }

    /// Compile the chunk query. It succeeds exactly when tree-sitter
    /// compiles the chunk query for the language's grammar; a query that
    /// does not compile is an `Error::Query` naming the language.
    pub fn query(&self) -> (res: crate::error::Result<ChunkQuery>)
        ensures
            res is Ok == query_compiles(self.language, self.chunk_query@),
            res matches Ok(q) ==> q@ == (self.language, self.chunk_query@),
            res matches Err(e) ==> e matches Error::Query { language, .. } && language@
                == language_name(self.language),
    {
        match compile_query(&self.ts_language(), self.chunk_query) {
            Ok(q) => Ok(q),
            Err(source) => Err(Error::Query { language: self.language.name(), source }),
        }
    }

    /// Maps a captured node's kind (e.g. `"class_declaration"`) to a chunk
    /// kind.
    pub fn kind_for_node(&self, node_kind: &str) -> (res: ChunkKind)
        ensures
            res == typescript::ts_kind(node_kind@),
    {
        match self.language {
            Language::TypeScript | Language::Tsx => typescript::kind_for_node(node_kind),
        }
    }
}

/// The file extensions registered for a language.
pub open spec fn registered_extensions(language: Language) -> Seq<Seq<char>> {
    match language {
        Language::TypeScript => seq!["ts"@, "mts"@, "cts"@],
        Language::Tsx => seq!["tsx"@],
    }
}

/// The views of a list of extensions.
pub open spec fn extension_views(exts: Seq<&'static str>) -> Seq<Seq<char>> {
    exts.map_values(|e: &'static str| e@)
}

/// `c` is the registered config of its language: its extensions and its
/// chunk query.
pub open spec fn is_registered(c: LanguageConfig) -> bool {
    &&& extension_views(c.extensions@) == registered_extensions(c.language)
    &&& c.chunk_query@ == typescript::CHUNK_QUERY@
}

/// The config for TypeScript: `.ts`, `.mts`, `.cts`.
pub fn typescript() -> (res: LanguageConfig)
    ensures
        res.language == Language::TypeScript,
        is_registered(res),
{
    let exts: &'static [&'static str] = &["ts", "mts", "cts"];
    assert(extension_views(exts@) =~= registered_extensions(Language::TypeScript));
    LanguageConfig::new(Language::TypeScript, exts, typescript::CHUNK_QUERY)
}

/// The config for TSX: `.tsx`.
pub fn tsx() -> (res: LanguageConfig)
    ensures
        res.language == Language::Tsx,
        is_registered(res),
{
    let exts: &'static [&'static str] = &["tsx"];
    assert(extension_views(exts@) =~= registered_extensions(Language::Tsx));
    LanguageConfig::new(Language::Tsx, exts, typescript::CHUNK_QUERY)
}

/// All registered languages. Extensions must not overlap.
pub fn registry() -> (res: Vec<LanguageConfig>)
    ensures
        res@.len() == 2,
        res@[0].language == Language::TypeScript,
        res@[1].language == Language::Tsx,
        forall|i: int| 0 <= i < res@.len() ==> is_registered(#[trigger] res@[i]),
{
    let mut res = Vec::new();
    res.push(typescript());
    res.push(tsx());
    res
}

/// Index of the last `c` in `s`; -1 if there is none.
pub open spec fn last_pos(s: Seq<u8>, c: u8) -> int
    decreases s.len(),
{
    if s.len() == 0 {
        -1
    } else if s.last() == c {
        s.len() - 1
    } else {
        last_pos(s.drop_last(), c)
    }
}

/// Length of the first `n` bytes of `p` once trailing `/` separators and
/// trailing `/.` components are dropped, as `Path` ignores them.
pub open spec fn trimmed_len(p: Seq<u8>, n: int) -> int
    decreases n,
{
    if n > 0 && p[n - 1] == 47u8 {
        trimmed_len(p, n - 1)
    } else if n > 1 && p[n - 1] == 46u8 && p[n - 2] == 47u8 {
        trimmed_len(p, n - 2)
    } else {
        n
    }
}

/// The last component of a `/`-separated path, trailing separators and
/// `.` components ignored.
pub open spec fn file_name(p: Seq<u8>) -> Seq<u8> {
    let t = p.subrange(0, trimmed_len(p, p.len() as int));
    t.subrange(last_pos(t, 47u8) + 1, t.len() as int)
}

/// The extension of a path, as `Path::extension` gives it: what follows
/// the last `.` of its file name, if that `.` is not the name's first byte
/// and the name is not `..`.
pub open spec fn extension(p: Seq<u8>) -> Option<Seq<u8>> {
    let n = file_name(p);
    let k = last_pos(n, 46u8);
    if k <= 0 || n == seq![46u8, 46u8] {
        None
    } else {
        Some(n.subrange(k + 1, n.len() as int))
    }
}

/// ASCII letters lowered, other bytes unchanged.
pub open spec fn ascii_lower(s: Seq<u8>) -> Seq<u8> {
    s.map_values(|c: u8| if 65 <= c <= 90 { (c + 32) as u8 } else { c })
}

/// `ext` is one of the extensions registered for `language`.
pub open spec fn has_extension(language: Language, ext: Seq<u8>) -> bool {
    exists|k: int|
        0 <= k < registered_extensions(language).len() && encode_utf8(
            #[trigger] registered_extensions(language)[k],
        ) == ext
}

/// The language registered for a lowercase extension, first in registry
/// order.
pub open spec fn extension_language(ext: Seq<u8>) -> Option<Language> {
    if has_extension(Language::TypeScript, ext) {
        Some(Language::TypeScript)
    } else if has_extension(Language::Tsx, ext) {
        Some(Language::Tsx)
    } else {
        None
    }
}

/// The language a path is chunked as: by its extension, lowercased.
pub open spec fn path_language(p: Seq<u8>) -> Option<Language> {
    match extension(p) {
        Some(e) => extension_language(ascii_lower(e)),
        None => None,
    }
}

proof fn lemma_last_pos(s: Seq<u8>, c: u8, i: int)
    requires
        0 <= i <= s.len(),
        forall|k: int| i <= k < s.len() ==> s[k] != c,
        i == 0 || s[i - 1] == c,
    ensures
        last_pos(s, c) == i - 1,
    decreases s.len(),
{
    if s.len() > 0 && s.len() > i {
        lemma_last_pos(s.drop_last(), c, i);
    }
}

proof fn lemma_last_pos_props(s: Seq<u8>, c: u8)
    ensures
        -1 <= last_pos(s, c) < s.len(),
        last_pos(s, c) >= 0 ==> s[last_pos(s, c)] == c,
        forall|k: int| last_pos(s, c) < k < s.len() ==> s[k] != c,
    decreases s.len(),
{
    if s.len() > 0 && s.last() != c {
        lemma_last_pos_props(s.drop_last(), c);
        assert forall|k: int| last_pos(s, c) < k < s.len() implies s[k] != c by {
            if k < s.len() - 1 {
                assert(s.drop_last()[k] == s[k]);
            }
        }
    }
}

/// The extension of a path is what follows the last dot of its file name:
/// for a path `stem.ext` whose `ext` is not empty and holds no `.` or `/`,
/// and whose file name does not start with that dot, the extension is
/// `ext`, whatever dots `stem` holds; so its language is that of `ext`,
/// lowercased.
pub proof fn lemma_extension_after_last_dot(stem: Seq<u8>, ext: Seq<u8>)
    requires
        stem.len() > 0,
        stem.last() != 47u8,
        ext.len() > 0,
        forall|k: int| 0 <= k < ext.len() ==> ext[k] != 46u8 && ext[k] != 47u8,
    ensures
        extension(stem + seq![46u8] + ext) == Some(ext),
        path_language(stem + seq![46u8] + ext) == extension_language(ascii_lower(ext)),
{
    let p = stem + seq![46u8] + ext;
    let len = p.len() as int;
    assert(p[len - 1] == ext[ext.len() - 1]);
    assert(trimmed_len(p, len) == len);
    assert(p.subrange(0, len) =~= p);
    let q = last_pos(p, 47u8);
    lemma_last_pos_props(p, 47u8);
    assert(q < stem.len() - 1) by {
        if q >= stem.len() - 1 {
            if q == stem.len() - 1 {
                assert(p[q] == stem.last());
            } else if q == stem.len() {
                assert(p[q] == 46u8);
            } else {
                assert(p[q] == ext[q - stem.len() - 1]);
            }
        }
    }
    let n = p.subrange(q + 1, len);
    assert(file_name(p) == n);
    let i = stem.len() - q;
    assert forall|x: int| i <= x < n.len() implies n[x] != 46u8 by {
        assert(n[x] == p[x + q + 1]);
        assert(p[x + q + 1] == ext[x + q + 1 - stem.len() - 1]);
    }
    assert(n[i - 1] == p[stem.len() as int]);
    lemma_last_pos(n, 46u8, i);
    assert(n != seq![46u8, 46u8]) by {
        assert(n.len() >= 3);
    }
    assert(n.subrange(i, n.len() as int) =~= ext) by {
        assert forall|x: int| 0 <= x < ext.len() implies n.subrange(i, n.len() as int)[x] == ext[x] by {
            assert(n[i + x] == p[i + x + q + 1]);
        }
    }
}

/// The two bytes are the same, but for the case of an ASCII letter.
pub open spec fn same_ignoring_case(a: u8, b: u8) -> bool {
    a == b || (65 <= a <= 90 && b == a + 32) || (65 <= b <= 90 && a == b + 32)
}

/// The language of a path does not depend on the case of its extension's
/// letters.
pub proof fn lemma_language_ignores_case(stem: Seq<u8>, ext: Seq<u8>, ext2: Seq<u8>)
    requires
        stem.len() > 0,
        stem.last() != 47u8,
        ext.len() > 0,
        forall|k: int| 0 <= k < ext.len() ==> ext[k] != 46u8 && ext[k] != 47u8,
        ext2.len() == ext.len(),
        forall|k: int| 0 <= k < ext.len() ==> same_ignoring_case(#[trigger] ext[k], ext2[k]),
    ensures
        path_language(stem + seq![46u8] + ext) == path_language(stem + seq![46u8] + ext2),
{
    assert forall|k: int| 0 <= k < ext2.len() implies ext2[k] != 46u8 && ext2[k] != 47u8 by {
        assert(same_ignoring_case(ext[k], ext2[k]));
    }
    lemma_extension_after_last_dot(stem, ext);
    lemma_extension_after_last_dot(stem, ext2);
    assert(ascii_lower(ext) =~= ascii_lower(ext2)) by {
        assert forall|k: int| 0 <= k < ext.len() implies ascii_lower(ext)[k] == ascii_lower(ext2)[k] by {
            assert(same_ignoring_case(ext[k], ext2[k]));
        }
    }
}

/// A file name whose only dot is its first byte (a hidden name such as
/// `.ts`) has no extension.
pub proof fn lemma_hidden_name_has_no_extension(dir: Seq<u8>, ext: Seq<u8>)
    requires
        dir.len() == 0 || dir.last() == 47u8,
        ext.len() > 0,
        forall|k: int| 0 <= k < ext.len() ==> ext[k] != 46u8 && ext[k] != 47u8,
    ensures
        extension(dir + seq![46u8] + ext) is None,
{
    let p = dir + seq![46u8] + ext;
    let len = p.len() as int;
    assert(p[len - 1] == ext[ext.len() - 1]);
    assert(trimmed_len(p, len) == len);
    assert(p.subrange(0, len) =~= p);
    let q = last_pos(p, 47u8);
    lemma_last_pos_props(p, 47u8);
    if dir.len() > 0 {
        assert(p[dir.len() - 1] == 47u8);
    }
    assert(q == dir.len() - 1) by {
        if q > dir.len() - 1 {
            if q == dir.len() {
                assert(p[q] == 46u8);
            } else {
                assert(p[q] == ext[q - dir.len() - 1]);
            }
        }
    }
    let n = p.subrange(q + 1, len);
    assert forall|x: int| 1 <= x < n.len() implies n[x] != 46u8 by {
        assert(n[x] == p[x + q + 1]);
        assert(p[x + q + 1] == ext[x - 1]);
    }
    assert(n[0] == 46u8);
    lemma_last_pos(n, 46u8, 1);
}

proof fn lemma_trimmed_len_prefix(p: Seq<u8>, x: Seq<u8>, n: int)
    requires
        0 <= n <= p.len(),
    ensures
        trimmed_len(p + x, n) == trimmed_len(p, n),
    decreases n,
{
    if n > 0 {
        assert((p + x)[n - 1] == p[n - 1]);
        if n > 1 {
            assert((p + x)[n - 2] == p[n - 2]);
        }
        lemma_trimmed_len_prefix(p, x, n - 1);
        if n > 1 {
            lemma_trimmed_len_prefix(p, x, n - 2);
        }
    }
}

/// A trailing separator or `.` component does not change a path's
/// extension, as `Path` ignores them.
pub proof fn lemma_extension_ignores_trailing(p: Seq<u8>)
    ensures
        extension(p + seq![47u8]) == extension(p),
        extension(p + seq![47u8, 46u8]) == extension(p),
{
    let a = p + seq![47u8];
    let c = p + seq![47u8, 46u8];
    lemma_trimmed_len_prefix(p, seq![47u8], p.len() as int);
    lemma_trimmed_len_prefix(p, seq![47u8, 46u8], p.len() as int);
    assert(a[a.len() - 1] == 47u8);
    assert(trimmed_len(a, a.len() as int) == trimmed_len(a, p.len() as int));
    assert(c[c.len() - 1] == 46u8 && c[c.len() - 2] == 47u8);
    assert(trimmed_len(c, c.len() as int) == trimmed_len(c, p.len() as int));
    let t = trimmed_len(p, p.len() as int);
    lemma_trimmed_bound(p, p.len() as int);
    assert(a.subrange(0, t) =~= p.subrange(0, t));
    assert(c.subrange(0, t) =~= p.subrange(0, t));
}

proof fn lemma_trimmed_bound(p: Seq<u8>, n: int)
    requires
        0 <= n,
    ensures
        0 <= trimmed_len(p, n) <= n,
    decreases n,
{
    if n > 0 {
        lemma_trimmed_bound(p, n - 1);
        if n > 1 {
            lemma_trimmed_bound(p, n - 2);
        }
    }
}

fn lower_byte(c: u8) -> (res: u8)
    ensures
        res == (if 65 <= c <= 90 { (c + 32) as u8 } else { c }),
{
    if 65 <= c && c <= 90 {
        c + 32
    } else {
        c
    }
}

fn bytes_eq(a: &Vec<u8>, b: &[u8]) -> (res: bool)
    ensures
        res == (a@ == b@),
{
    if a.len() != b.len() {
        return false;
    }
    let mut i: usize = 0;
    while i < a.len()
        invariant
            a@.len() == b@.len(),
            i <= a@.len(),
            forall|j: int| 0 <= j < i ==> a@[j] == b@[j],
        decreases a@.len() - i,
    {
        if a[i] != b[i] {
            return false;
        }
        i = i + 1;
    }
    assert(a@ =~= b@);
    true
}

/// Look up the language config for a file by the extension of its
/// `/`-separated path, lowercased.
pub fn config_for_path(path: &str) -> (res: Option<LanguageConfig>)
    ensures
        res is Some <==> path_language(path.spec_bytes()) is Some,
        res matches Some(c) ==> path_language(path.spec_bytes()) == Some(c.language)
            && is_registered(c),
{
    let bytes = path.as_bytes();
    let ghost p = bytes@;
    let mut len = bytes.len();
    assert(trimmed_len(p, len as int) == trimmed_len(p, p.len() as int));
    loop
        invariant
            len <= p.len(),
            bytes@ == p,
            trimmed_len(p, len as int) == trimmed_len(p, p.len() as int),
        ensures
            trimmed_len(p, len as int) == len,
        decreases len,
    {
        if len > 0 && bytes[len - 1] == 47u8 {
            len = len - 1;
        } else if len > 1 && bytes[len - 1] == 46u8 && bytes[len - 2] == 47u8 {
            len = len - 2;
        } else {
            break;
        }
    }
    let ghost t = p.subrange(0, len as int);
    assert(t == p.subrange(0, trimmed_len(p, p.len() as int)));
    let mut i = len;
    while i > 0 && bytes[i - 1] != 47u8
        invariant
            i <= len,
            len <= p.len(),
            bytes@ == p,
            t == p.subrange(0, len as int),
            forall|k: int| i <= k < t.len() ==> t[k] != 47u8,
        decreases i,
    {
        i = i - 1;
    }
    proof {
        lemma_last_pos(t, 47u8, i as int);
    }
    let ghost n = file_name(p);
    assert(n =~= p.subrange(i as int, len as int));
    let mut j = len;
    while j > i && bytes[j - 1] != 46u8
        invariant
            i <= j <= len,
            len <= p.len(),
            bytes@ == p,
            forall|k: int| j <= k < len ==> p[k] != 46u8,
        decreases j,
    {
        j = j - 1;
    }
    proof {
        assert forall|k: int| j - i <= k < n.len() implies n[k] != 46u8 by {
            assert(n[k] == p[k + i]);
        }
        if j > i {
            assert(n[j - i - 1] == p[j - 1]);
        }
        lemma_last_pos(n, 46u8, j - i);
    }
    if j - i <= 1 {
        return None;
    }
    if len - i == 2 && bytes[i] == 46u8 && bytes[i + 1] == 46u8 {
        assert(n =~= seq![46u8, 46u8]);
        return None;
    }
    assert(n != seq![46u8, 46u8]) by {
        if n == seq![46u8, 46u8] {
            assert(n[0] == bytes[i as int] && n[1] == bytes[i + 1]);
        }
    }
    let ghost e = n.subrange(j - i, n.len() as int);
    let mut lowered: Vec<u8> = Vec::new();
    let mut k = j;
    while k < len
        invariant
            j <= k <= len,
            len <= p.len(),
            bytes@ == p,
            e =~= p.subrange(j as int, len as int),
            lowered@ =~= ascii_lower(p.subrange(j as int, k as int)),
        decreases len - k,
    {
        lowered.push(lower_byte(bytes[k]));
        k = k + 1;
    }
    assert(lowered@ == ascii_lower(e));
    assert(extension(p) == Some(e));
    let mut configs = registry();
    let mut ci: usize = 0;
    while ci < configs.len()
        invariant
            configs@.len() == 2,
            configs@[0].language == Language::TypeScript,
            configs@[1].language == Language::Tsx,
            forall|x: int| 0 <= x < configs@.len() ==> is_registered(#[trigger] configs@[x]),
            ci <= 2,
            lowered@ == ascii_lower(e),
            extension(p) == Some(e),
            p == path.spec_bytes(),
            ci > 0 ==> !has_extension(Language::TypeScript, lowered@),
            ci > 1 ==> !has_extension(Language::Tsx, lowered@),
        decreases 2 - ci,
    {
        let exts = configs[ci].extensions;
        let ghost lang = configs@[ci as int].language;
        assert(is_registered(configs@[ci as int]));
        let mut ei: usize = 0;
        while ei < exts.len()
            invariant
                configs@.len() == 2,
                ci < 2,
                configs@[0].language == Language::TypeScript,
                configs@[1].language == Language::Tsx,
                forall|x: int| 0 <= x < configs@.len() ==> is_registered(#[trigger] configs@[x]),
                lang == configs@[ci as int].language,
                lowered@ == ascii_lower(e),
                extension(p) == Some(e),
                p == path.spec_bytes(),
                ci > 0 ==> !has_extension(Language::TypeScript, lowered@),
                exts@ == configs@[ci as int].extensions@,
                extension_views(exts@) == registered_extensions(lang),
                ei <= exts@.len(),
                forall|x: int| 0 <= x < ei ==> encode_utf8(#[trigger] registered_extensions(lang)[x]) != lowered@,
            decreases exts@.len() - ei,
        {
            assert(registered_extensions(lang)[ei as int] == exts@[ei as int]@);
            if bytes_eq(&lowered, exts[ei].as_bytes()) {
                assert(encode_utf8(registered_extensions(lang)[ei as int]) == lowered@);
                assert(has_extension(lang, lowered@));
                let c = configs.remove(ci);
                return Some(c);
            }
            ei = ei + 1;
        }
        assert(!has_extension(lang, lowered@));
        ci = ci + 1;
    }
    None
}

/// No extension is registered for two languages, so the language of a path
/// does not depend on the order of the registry.
pub proof fn lemma_extensions_disjoint()
    ensures
        forall|e: Seq<u8>| !(has_extension(Language::TypeScript, e) && has_extension(Language::Tsx, e)),
{
    reveal_strlit("ts");
    reveal_strlit("mts");
    reveal_strlit("cts");
    reveal_strlit("tsx");
    assert forall|e: Seq<u8>| !(has_extension(Language::TypeScript, e) && has_extension(Language::Tsx, e)) by {
        if has_extension(Language::TypeScript, e) && has_extension(Language::Tsx, e) {
            let k = choose|k: int|
                0 <= k < registered_extensions(Language::TypeScript).len() && encode_utf8(
                    #[trigger] registered_extensions(Language::TypeScript)[k],
                ) == e;
            let m = choose|m: int|
                0 <= m < registered_extensions(Language::Tsx).len() && encode_utf8(
                    #[trigger] registered_extensions(Language::Tsx)[m],
                ) == e;
            let a = registered_extensions(Language::TypeScript)[k];
            let t = registered_extensions(Language::Tsx)[m];
            vstd::utf8::encode_utf8_decode_utf8(a);
            vstd::utf8::encode_utf8_decode_utf8(t);
            assert(a == t);
            assert(t == "tsx"@);
            assert(t.len() == 3 && t[0] == 't' && t[1] == 's' && t[2] == 'x');
        }
    }
}

} // verus!
