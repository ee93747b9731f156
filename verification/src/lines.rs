//! Line index of a source text: the byte offset at which each line starts,
//! so that a 1-based inclusive line span can be sliced out directly.
use vstd::prelude::*;
use vstd::utf8::*;
use vstd::string::StringSliceAdditionalSpecFns;
use crate::text::{all_ws, byte_slice, is_blank, lemma_boundary_after_ascii, lemma_str_bytes};

verus! {

/// Line starts among the first `n` bytes: offset 0, and every offset right
/// after a `\n` that is not the last byte.
pub open spec fn starts_prefix(b: Seq<u8>, n: int) -> Seq<int>
    decreases n,
{
    if n <= 0 {
        seq![0int]
    } else {
        let p = starts_prefix(b, n - 1);
        if b[n - 1] == 10u8 && n < b.len() {
            p.push(n)
        } else {
            p
        }
    }
}

/// Byte offsets at which the lines of `b` start.
pub open spec fn line_starts(b: Seq<u8>) -> Seq<int> {
    starts_prefix(b, b.len() as int)
}

/// Number of lines of `b`: none for an empty text; a final `\n` does not
/// open another line.
pub open spec fn line_count(b: Seq<u8>) -> int {
    if b.len() == 0 {
        0
    } else {
        line_starts(b).len() as int
    }
}

/// Offset of the first byte of line `l` (1-based).
pub open spec fn line_begin(b: Seq<u8>, l: int) -> int {
    line_starts(b)[l - 1]
}

/// Offset just past line `l` (its `\n` included); the end of the text for
/// the last line and beyond.
pub open spec fn line_end(b: Seq<u8>, l: int) -> int {
    if l < line_count(b) {
        line_starts(b)[l]
    } else {
        b.len() as int
    }
}

/// The bytes of the 1-based inclusive line span `start..=end`.
pub open spec fn span_bytes(b: Seq<u8>, start: int, end: int) -> Seq<u8> {
    b.subrange(line_begin(b, start), line_end(b, end))
}

/// The text of the 1-based inclusive line span `start..=end`, with the final
/// newline if there is one.
pub open spec fn span_text(b: Seq<u8>, start: int, end: int) -> Seq<char> {
    decode_utf8(span_bytes(b, start, end))
}

/// Line `l` holds only whitespace.
pub open spec fn line_blank(b: Seq<u8>, l: int) -> bool {
    all_ws(span_text(b, l, l))
}

/// A line span that can be sliced: it starts on an existing line and does
/// not end before it starts.
pub open spec fn span_ok(b: Seq<u8>, start: int, end: int) -> bool {
    1 <= start <= end && start <= line_count(b)
}

pub proof fn lemma_starts_prefix(b: Seq<u8>, n: int)
    requires
        0 <= n <= b.len(),
    ensures
        starts_prefix(b, n).len() >= 1,
        starts_prefix(b, n)[0] == 0,
        forall|i: int, j: int|
            0 <= i < j < starts_prefix(b, n).len() ==> #[trigger] starts_prefix(b, n)[i]
                < #[trigger] starts_prefix(b, n)[j],
        forall|i: int|
            1 <= i < starts_prefix(b, n).len() ==> 1 <= #[trigger] starts_prefix(b, n)[i] <= n
                && starts_prefix(b, n)[i] < b.len() && b[starts_prefix(b, n)[i] - 1] == 10u8,
    decreases n,
{
    if n > 0 {
        lemma_starts_prefix(b, n - 1);
    }
}

proof fn lemma_starts_prefix_exact(b: Seq<u8>, n: int)
    requires
        0 <= n <= b.len(),
    ensures
        forall|k: int|
            #[trigger] starts_prefix(b, n).contains(k) <==> (k == 0 || (0 < k <= n && k < b.len() && b[k - 1]
                == 10u8)),
    decreases n,
{
    lemma_starts_prefix(b, n);
    let s = starts_prefix(b, n);
    if n > 0 {
        lemma_starts_prefix_exact(b, n - 1);
        let p = starts_prefix(b, n - 1);
        assert forall|k: int| #[trigger] s.contains(k) <==> (k == 0 || (0 < k <= n && k < b.len() && b[k - 1]
            == 10u8)) by {
            if b[n - 1] == 10u8 && n < b.len() {
                assert(s == p.push(n));
                if s.contains(k) && k != n {
                    let x = choose|x: int| 0 <= x < s.len() && s[x] == k;
                    assert(p[x] == k);
                }
                if k == n {
                    assert(s[s.len() - 1] == n);
                }
                if p.contains(k) {
                    let x = choose|x: int| 0 <= x < p.len() && p[x] == k;
                    assert(s[x] == k);
                }
            }
        }
    } else {
        assert forall|k: int| #[trigger] s.contains(k) <==> k == 0 by {
            if k == 0 {
                assert(s[0] == 0);
            }
        }
    }
}

/// The number of newlines (`\n`) among the first `n` bytes of `b`.
pub open spec fn newlines_before(b: Seq<u8>, n: int) -> nat
    decreases n,
{
    if n <= 0 {
        0
    } else {
        newlines_before(b, n - 1) + if b[n - 1] == 10u8 {
            1nat
        } else {
            0nat
        }
    }
}

proof fn lemma_starts_prefix_len(b: Seq<u8>, n: int)
    requires
        0 <= n < b.len(),
    ensures
        starts_prefix(b, n).len() == 1 + newlines_before(b, n),
    decreases n,
{
    if n > 0 {
        lemma_starts_prefix_len(b, n - 1);
    }
}

/// Where lines start: an offset starts a line exactly when it is 0, or it
/// lies inside the text right after a newline (`\n`), whatever precedes
/// that newline. So a non-empty text with `k` newlines before its last byte
/// has `k + 1` lines.
pub proof fn lemma_lines_start_after_newlines(b: Seq<u8>)
    ensures
        forall|k: int|
            #[trigger] line_starts(b).contains(k) <==> (k == 0 || (0 < k < b.len() && b[k - 1] == 10u8)),
        b.len() > 0 ==> line_count(b) == 1 + newlines_before(b, b.len() - 1),
{
    lemma_starts_prefix_exact(b, b.len() as int);
    if b.len() > 0 {
        lemma_starts_prefix_len(b, b.len() - 1);
    }
}

/// Facts about the line starts of a text: they begin at 0, strictly
/// increase, lie inside the text, each follows a newline, and each is a
/// character boundary.
pub proof fn lemma_line_starts(b: Seq<u8>)
    requires
        valid_utf8(b),
    ensures
        line_starts(b).len() >= 1,
        line_starts(b)[0] == 0,
        b.len() > 0 ==> line_count(b) == line_starts(b).len(),
        line_count(b) <= b.len(),
        forall|i: int, j: int|
            0 <= i < j < line_starts(b).len() ==> #[trigger] line_starts(b)[i]
                < #[trigger] line_starts(b)[j],
        forall|i: int|
            0 <= i < line_starts(b).len() ==> 0 <= #[trigger] line_starts(b)[i] && (b.len() > 0
                ==> line_starts(b)[i] < b.len()),
        forall|i: int|
            0 <= i < line_starts(b).len() ==> is_char_boundary(b, #[trigger] line_starts(b)[i]),
{
    lemma_starts_prefix(b, b.len() as int);
    let s = line_starts(b);
    assert forall|i: int| 0 <= i < s.len() implies is_char_boundary(b, #[trigger] s[i]) by {
        if i == 0 {
            is_char_boundary_start_end_of_seq(b);
        } else {
            lemma_boundary_after_ascii(b, s[i] - 1);
        }
    }
    if b.len() > 0 {
        lemma_count_bound(s, b.len() as int);
    }
}

proof fn lemma_count_bound(s: Seq<int>, n: int)
    requires
        s.len() >= 1,
        s[0] == 0,
        forall|i: int, j: int| 0 <= i < j < s.len() ==> #[trigger] s[i] < #[trigger] s[j],
        forall|i: int| 0 <= i < s.len() ==> #[trigger] s[i] < n,
    ensures
        s.len() <= n,
    decreases s.len(),
{
    if s.len() > 1 {
        let t = s.drop_last();
        assert(t[t.len() - 1] == s[s.len() - 2]);
        assert(s[s.len() - 2] < s[s.len() - 1]);
        lemma_count_bound(t, n - 1);
    }
}

/// Facts about the byte range of a line span.
pub proof fn lemma_span(b: Seq<u8>, start: int, end: int)
    requires
        valid_utf8(b),
        span_ok(b, start, end),
    ensures
        0 <= line_begin(b, start) < line_end(b, end) <= b.len(),
        line_begin(b, start) < line_end(b, start),
        is_char_boundary(b, line_begin(b, start)),
        is_char_boundary(b, line_end(b, end)),
{
    lemma_line_starts(b);
    let s = line_starts(b);
    is_char_boundary_start_end_of_seq(b);
    if start < line_count(b) {
        assert(s[start - 1] < s[start]);
    }
    if end < line_count(b) {
        assert(s[start - 1] <= s[end]) by {
            if start - 1 < end {
                assert(s[start - 1] < s[end]);
            }
        }
    }
}

/// Consecutive line spans concatenate: the text of `a..=m` followed by that
/// of `m+1..=c` is the text of `a..=c`.
pub proof fn lemma_span_concat(b: Seq<u8>, a: int, m: int, c: int)
    requires
        valid_utf8(b),
        1 <= a <= m < c,
        m < line_count(b),
    ensures
        span_bytes(b, a, m) + span_bytes(b, m + 1, c) == span_bytes(b, a, c),
{
    lemma_span(b, a, m);
    lemma_span(b, m + 1, c);
    lemma_span(b, a, c);
    assert(line_end(b, m) == line_begin(b, m + 1));
    assert(span_bytes(b, a, m) + span_bytes(b, m + 1, c) =~= span_bytes(b, a, c));
}

/// All lines together are the whole text.
pub proof fn lemma_whole_text(b: Seq<u8>)
    requires
        valid_utf8(b),
        b.len() > 0,
    ensures
        span_bytes(b, 1, line_count(b)) == b,
{
    lemma_line_starts(b);
    assert(span_bytes(b, 1, line_count(b)) =~= b);
}

/// Byte offsets of line starts, for slicing chunks out of the source by line
/// number without scanning it again.
pub struct LineIndex {
    pub starts: Vec<usize>,
    pub count: usize,
}

impl LineIndex {
    /// The index describes the text whose bytes are `b`.
    pub open spec fn indexes(&self, b: Seq<u8>) -> bool {
        &&& self.starts@.len() == line_starts(b).len()
        &&& forall|i: int| 0 <= i < self.starts@.len() ==> #[trigger] self.starts@[i] == line_starts(b)[i]
        &&& self.count == line_count(b)
    }

    pub fn new(source: &str) -> (res: Self)
        ensures
            res.indexes(source.spec_bytes()),
    {
        let bytes = source.as_bytes();
        let ghost b = source.spec_bytes();
        let mut starts: Vec<usize> = Vec::new();
        starts.push(0);
        let mut i: usize = 0;
        while i < bytes.len()
            invariant
                bytes@ == b,
                i <= b.len(),
                starts@.len() == starts_prefix(b, i as int).len(),
                forall|k: int| 0 <= k < starts@.len() ==> #[trigger] starts@[k] == starts_prefix(b, i as int)[k],
            decreases b.len() - i,
        {
            if bytes[i] == 10u8 && i + 1 < bytes.len() {
                starts.push(i + 1);
            }
            i = i + 1;
        }
        let count = if bytes.len() == 0 { 0 } else { starts.len() };
        LineIndex { starts, count }
    }

    /// Source text of the 1-based inclusive line span, including the final
    /// newline if present.
    pub fn slice<'s>(&self, source: &'s str, start_line: usize, end_line: usize) -> (res: &'s str)
        requires
            self.indexes(source.spec_bytes()),
            span_ok(source.spec_bytes(), start_line as int, end_line as int),
        ensures
            res@ == span_text(source.spec_bytes(), start_line as int, end_line as int),
            res.spec_bytes() == span_bytes(source.spec_bytes(), start_line as int, end_line as int),
    {
        proof {
            lemma_str_bytes(source);
            lemma_span(source.spec_bytes(), start_line as int, end_line as int);
        }
        let start = self.starts[start_line - 1];
        let end = if end_line < self.count {
            self.starts[end_line]
        } else {
            source.as_bytes().len()
        };
        byte_slice(source, start, end)
    }

    /// Line `line` holds only whitespace.
    pub fn is_blank(&self, source: &str, line: usize) -> (res: bool)
        requires
            self.indexes(source.spec_bytes()),
            1 <= line <= line_count(source.spec_bytes()),
        ensures
            res == line_blank(source.spec_bytes(), line as int),
    {
        is_blank(self.slice(source, line, line))
    }
}

} // verus!
