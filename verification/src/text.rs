//! Text helpers over `str`: Unicode whitespace, blank lines, trimming,
//! equality, and slicing a string at byte offsets that are proved to fall
//! on character boundaries.
use vstd::prelude::*;
use vstd::utf8::*;
use vstd::string::StringSliceAdditionalSpecFns;

verus! {

broadcast use vstd::string::axiom_spec_iter, vstd::utf8::group_utf8_lib;

/// The Unicode `White_Space` property, which is what `char::is_whitespace`
/// and `str::trim` go by.
pub open spec fn is_ws(c: char) -> bool {
    let u = c as u32;
    ||| 0x09 <= u <= 0x0d
    ||| u == 0x20
    ||| u == 0x85
    ||| u == 0xa0
    ||| u == 0x1680
    ||| 0x2000 <= u <= 0x200a
    ||| u == 0x2028
    ||| u == 0x2029
    ||| u == 0x202f
    ||| u == 0x205f
    ||| u == 0x3000
}

/// Every character of `s` is whitespace (so `s.trim()` is empty).
pub open spec fn all_ws(s: Seq<char>) -> bool {
    forall|i: int| 0 <= i < s.len() ==> is_ws(#[trigger] s[i])
}

/// Whether `c` has the Unicode `White_Space` property.
pub fn is_whitespace(c: char) -> (res: bool)
    ensures
        res == is_ws(c),
{
    let u = c as u32;
    (0x09 <= u && u <= 0x0d) || u == 0x20 || u == 0x85 || u == 0xa0 || u == 0x1680 || (0x2000
        <= u && u <= 0x200a) || u == 0x2028 || u == 0x2029 || u == 0x202f || u == 0x205f || u
        == 0x3000
}

/// Whether `s` holds nothing but whitespace, i.e. `s.trim().is_empty()`.
pub fn is_blank(s: &str) -> (res: bool)
    ensures
        res == all_ws(s@),
{
    let mut all = true;
    for c in it: s.chars()
        invariant
            it.seq() == s@,
            all == all_ws(s@.take(it.index() as int)),
    {
        let ghost prev = s@.take(it.index() as int);
        let ghost next = s@.take(it.index() + 1);
        assert(next == prev.push(c));
        if !is_whitespace(c) {
            all = false;
            assert(next[prev.len() as int] == c);
        } else if all {
            assert forall|i: int| 0 <= i < next.len() implies is_ws(#[trigger] next[i]) by {
                if i < prev.len() {
                    assert(next[i] == prev[i]);
                }
            }
        }
    }
    assert(s@.take(s@.len() as int) == s@);
    all
}

/// Equality of two strings, decided on their UTF-8 bytes.
pub fn str_eq(a: &str, b: &str) -> (res: bool)
    ensures
        res == (a@ == b@),
{
    let ab = a.as_bytes();
    let bb = b.as_bytes();
    if ab.len() != bb.len() {
        return false;
    }
    let mut i: usize = 0;
    while i < ab.len()
        invariant
            ab@ == a.spec_bytes(),
            bb@ == b.spec_bytes(),
            ab@.len() == bb@.len(),
            i <= ab@.len(),
            forall|j: int| 0 <= j < i ==> ab@[j] == bb@[j],
        decreases ab@.len() - i,
    {
        if ab[i] != bb[i] {
            return false;
        }
        i = i + 1;
    }
    assert(ab@ == bb@);
    assert(decode_utf8(encode_utf8(a@)) == a@);
    assert(decode_utf8(encode_utf8(b@)) == b@);
    true
}

/// The bytes of a string are valid UTF-8 and decode to its characters.
pub proof fn lemma_str_bytes(s: &str)
    ensures
        valid_utf8(s.spec_bytes()),
        decode_utf8(s.spec_bytes()) == s@,
        is_char_boundary(s.spec_bytes(), 0),
        is_char_boundary(s.spec_bytes(), s.spec_bytes().len() as int),
{
    assert(decode_utf8(encode_utf8(s@)) == s@);
}

/// In valid UTF-8, the position right after an ASCII byte is a character
/// boundary.
pub proof fn lemma_boundary_after_ascii(bytes: Seq<u8>, i: int)
    requires
        valid_utf8(bytes),
        0 <= i < bytes.len(),
        bytes[i] < 0x80,
    ensures
        is_char_boundary(bytes, i + 1),
    decreases bytes.len(),
{
    is_char_boundary_iff_not_is_continuation_byte(bytes, i);
    let l = length_of_first_scalar(bytes);
    let rest = pop_first_scalar(bytes);
    if i == 0 {
        assert(l == 1);
        assert(is_char_boundary(rest, 0));
    } else {
        assert(is_char_boundary(rest, i - l));
        assert(i - l >= 0);
        assert(rest[i - l] == bytes[i]);
        lemma_boundary_after_ascii(rest, i - l);
    }
}

/// A character boundary of a valid UTF-8 sequence stays one in a prefix
/// that ends on a boundary.
pub proof fn lemma_boundary_in_prefix(bytes: Seq<u8>, end: int, start: int)
    requires
        valid_utf8(bytes),
        0 <= start <= end <= bytes.len(),
        is_char_boundary(bytes, end),
        is_char_boundary(bytes, start),
    ensures
        valid_utf8(bytes.subrange(0, end)),
        is_char_boundary(bytes.subrange(0, end), start),
{
    let head = bytes.subrange(0, end);
    valid_utf8_split(bytes, end);
    is_char_boundary_start_end_of_seq(head);
    if start < end {
        is_char_boundary_iff_not_is_continuation_byte(bytes, start);
        is_char_boundary_iff_not_is_continuation_byte(head, start);
    } else if start == 0 {
    }
}

/// The part of `s` between two byte offsets that fall on character
/// boundaries.
pub fn byte_slice(s: &str, start: usize, end: usize) -> (res: &str)
    requires
        start <= end <= s.spec_bytes().len(),
        is_char_boundary(s.spec_bytes(), start as int),
        is_char_boundary(s.spec_bytes(), end as int),
    ensures
        res.spec_bytes() == s.spec_bytes().subrange(start as int, end as int),
        res@ == decode_utf8(s.spec_bytes().subrange(start as int, end as int)),
{
    proof {
        lemma_str_bytes(s);
        lemma_boundary_in_prefix(s.spec_bytes(), end as int, start as int);
    }
    let (head, _) = s.split_at(end);
    let (_, mid) = head.split_at(start);
    proof {
        assert(mid.spec_bytes() == s.spec_bytes().subrange(start as int, end as int));
        lemma_str_bytes(mid);
    }
    mid
}

} // verus!
