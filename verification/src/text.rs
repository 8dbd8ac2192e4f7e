//! Text primitives over the UTF-8 bytes of a string.
//!
//! Every position in this module is a byte offset, as in Rust's own `str`
//! slicing. A slice that does not start or end on a character boundary is
//! modelled as `None`: `&s[a..]` panics exactly where `suffix` is `None`.
//!
//! Whitespace is the Unicode `White_Space` property, which is what
//! `char::is_whitespace`, `str::trim` and `str::split_whitespace` use.
use vstd::prelude::*;
use vstd::string::StringSliceAdditionalSpecFns;
use vstd::utf8::*;

verus! {

broadcast use vstd::seq::group_seq_axioms, vstd::seq_lib::group_seq_properties;

/// Length of the UTF-8 encoding of the whitespace character that `b` starts
/// with, or 0 when `b` does not start with one.
///
/// The characters are the 25 code points with the Unicode `White_Space`
/// property: U+0009..U+000D, U+0020 (one byte), U+0085, U+00A0 (two bytes),
/// U+1680, U+2000..U+200A, U+2028, U+2029, U+202F, U+205F, U+3000 (three bytes).
pub open spec fn ws_len(b: Seq<u8>) -> int {
    if b.len() >= 1 && ((0x09 <= b[0] && b[0] <= 0x0d) || b[0] == 0x20) {
        1
    } else if b.len() >= 2 && b[0] == 0xc2 && (b[1] == 0x85 || b[1] == 0xa0) {
        2
    } else if b.len() >= 3 && b[0] == 0xe1 && b[1] == 0x9a && b[2] == 0x80 {
        3
    } else if b.len() >= 3 && b[0] == 0xe2 && b[1] == 0x80 && ((0x80 <= b[2] && b[2] <= 0x8a)
        || b[2] == 0xa8 || b[2] == 0xa9 || b[2] == 0xaf) {
        3
    } else if b.len() >= 3 && b[0] == 0xe2 && b[1] == 0x81 && b[2] == 0x9f {
        3
    } else if b.len() >= 3 && b[0] == 0xe3 && b[1] == 0x80 && b[2] == 0x80 {
        3
    } else {
        0
    }
}

/// Length of the whitespace character that `b` ends with, or 0.
pub open spec fn ws_len_end(b: Seq<u8>) -> int {
    let n = b.len() as int;
    if n >= 1 && ws_len(b.subrange(n - 1, n)) == 1 {
        1
    } else if n >= 2 && ws_len(b.subrange(n - 2, n)) == 2 {
        2
    } else if n >= 3 && ws_len(b.subrange(n - 3, n)) == 3 {
        3
    } else {
        0
    }
}

/// Number of bytes of leading whitespace.
pub open spec fn lead_ws(b: Seq<u8>) -> nat
    decreases b.len(),
{
    if ws_len(b) > 0 {
        ws_len(b) as nat + lead_ws(b.subrange(ws_len(b), b.len() as int))
    } else {
        0
    }
}

/// Number of bytes of trailing whitespace.
pub open spec fn trail_ws(b: Seq<u8>) -> nat
    decreases b.len(),
{
    if ws_len_end(b) > 0 {
        ws_len_end(b) as nat + trail_ws(b.subrange(0, b.len() - ws_len_end(b)))
    } else {
        0
    }
}

/// `str::trim_start`.
pub open spec fn trim_start(b: Seq<u8>) -> Seq<u8> {
    b.subrange(lead_ws(b) as int, b.len() as int)
}

/// `str::trim_end`.
pub open spec fn trim_end(b: Seq<u8>) -> Seq<u8> {
    b.subrange(0, b.len() - trail_ws(b))
}

/// `str::trim`.
pub open spec fn trim(b: Seq<u8>) -> Seq<u8> {
    trim_end(trim_start(b))
}

/// `str::trim` on the characters of a string.
pub open spec fn trim_chars(s: Seq<char>) -> Seq<char> {
    decode_utf8(trim(encode_utf8(s)))
}

/// `str::starts_with`.
pub open spec fn starts_with(b: Seq<u8>, p: Seq<u8>) -> bool {
    p.len() <= b.len() && b.subrange(0, p.len() as int) == p
}

/// The first position at or after `i` where `p` occurs in `h`.
pub open spec fn find_from(h: Seq<u8>, p: Seq<u8>, i: int) -> Option<int>
    decreases h.len() - i,
{
    if i < 0 || i + p.len() > h.len() {
        None
    } else if p.len() == 0 || h.subrange(i, i + p.len()) == p {
        Some(i)
    } else {
        find_from(h, p, i + 1)
    }
}

/// `str::find` with a pattern that is a non-empty ASCII string: the byte
/// offset of the first occurrence.
pub open spec fn find(h: Seq<u8>, p: Seq<u8>) -> Option<int> {
    find_from(h, p, 0)
}

/// True when `p` is a position at which `b` may be sliced.
pub open spec fn can_slice(b: Seq<u8>, p: int) -> bool {
    0 <= p <= b.len() && is_char_boundary(b, p)
}

/// `&b[p..]`, or `None` where that slice panics.
pub open spec fn suffix(b: Seq<u8>, p: int) -> Option<Seq<u8>> {
    if can_slice(b, p) {
        Some(b.subrange(p, b.len() as int))
    } else {
        None
    }
}

/// `&b[..p]`, or `None` where that slice panics.
pub open spec fn prefix(b: Seq<u8>, p: int) -> Option<Seq<u8>> {
    if can_slice(b, p) {
        Some(b.subrange(0, p))
    } else {
        None
    }
}

/// `&b[a..c]`, or `None` where that slice panics.
pub open spec fn range(b: Seq<u8>, a: int, c: int) -> Option<Seq<u8>> {
    if a <= c && can_slice(b, a) && can_slice(b, c) {
        Some(b.subrange(a, c))
    } else {
        None
    }
}

/// The position after `b[p..].trim_start()`: `p` plus the leading whitespace there.
pub open spec fn skip_ws(b: Seq<u8>, p: int) -> int {
    p + lead_ws(b.subrange(p, b.len() as int))
}

/// Length of the run of non-whitespace bytes that `b` starts with.
pub open spec fn word_len(b: Seq<u8>) -> nat
    decreases b.len(),
{
    if b.len() == 0 || ws_len(b) > 0 {
        0
    } else {
        1 + word_len(b.subrange(1, b.len() as int))
    }
}

/// `str::split_whitespace`: the maximal runs of non-whitespace characters.
pub open spec fn words(b: Seq<u8>) -> Seq<Seq<u8>>
    decreases b.len(),
{
    let t = trim_start(b);
    if t.len() == 0 {
        seq![]
    } else {
        let w = word_len(t);
        if 0 < w <= t.len() && t.len() <= b.len() {
            seq![t.subrange(0, w as int)] + words(t.subrange(w as int, t.len() as int))
        } else {
            seq![]
        }
    }
}

/// Index of the first occurrence of byte `c` in `b`, or `b.len()` when there is none.
pub open spec fn index_of_byte(b: Seq<u8>, c: u8) -> nat
    decreases b.len(),
{
    if b.len() == 0 {
        0
    } else if b[0] == c {
        0
    } else {
        1 + index_of_byte(b.subrange(1, b.len() as int), c)
    }
}

// ---------------------------------------------------------------------------
// Lemmas
// ---------------------------------------------------------------------------
pub proof fn lemma_ws_len_bounds(b: Seq<u8>)
    ensures
        0 <= ws_len(b) <= 3,
        ws_len(b) <= b.len(),
        ws_len(b) > 0 ==> b[0] < 0x80 || b[0] == 0xc2 || b[0] == 0xe1 || b[0] == 0xe2 || b[0]
            == 0xe3,
        ws_len(b) == 1 ==> b[0] < 0x80,
        ws_len(b) == 2 ==> b[0] == 0xc2,
        ws_len(b) == 3 ==> (b[0] == 0xe1 || b[0] == 0xe2 || b[0] == 0xe3),
{
}

pub proof fn lemma_lead_ws_bound(b: Seq<u8>)
    ensures
        lead_ws(b) <= b.len(),
    decreases b.len(),
{
    if ws_len(b) > 0 {
        lemma_ws_len_bounds(b);
        lemma_lead_ws_bound(b.subrange(ws_len(b), b.len() as int));
    }
}

/// `trim_start` never lengthens.
pub proof fn lemma_lead_ws_bound_of(b: Seq<u8>)
    ensures
        trim_start(b).len() <= b.len(),
        trim_start(b).len() == b.len() - lead_ws(b),
{
    lemma_lead_ws_bound(b);
}

pub proof fn lemma_trail_ws_bound(b: Seq<u8>)
    ensures
        trail_ws(b) <= b.len(),
    decreases b.len(),
{
    if ws_len_end(b) > 0 {
        trail_ws_step_bound(b);
        lemma_trail_ws_bound(b.subrange(0, b.len() - ws_len_end(b)));
    }
}

proof fn trail_ws_step_bound(b: Seq<u8>)
    ensures
        0 <= ws_len_end(b) <= b.len(),
{
}

pub proof fn lemma_word_len_bound(b: Seq<u8>)
    ensures
        word_len(b) <= b.len(),
        word_len(b) < b.len() ==> ws_len(b.subrange(word_len(b) as int, b.len() as int)) > 0,
        forall|j: int| 0 <= j < word_len(b) ==> #[trigger] ws_len(b.subrange(j, b.len() as int))
            == 0,
    decreases b.len(),
{
    if b.len() == 0 || ws_len(b) > 0 {
    } else {
        let r = b.subrange(1, b.len() as int);
        lemma_word_len_bound(r);
        assert(r.subrange(word_len(r) as int, r.len() as int) =~= b.subrange(
            word_len(b) as int,
            b.len() as int,
        ));
        assert forall|j: int| 0 <= j < word_len(b) implies #[trigger] ws_len(
            b.subrange(j, b.len() as int),
        ) == 0 by {
            if j == 0 {
                assert(b.subrange(0, b.len() as int) =~= b);
            } else {
                assert(r.subrange(j - 1, r.len() as int) =~= b.subrange(j, b.len() as int));
            }
        }
    }
}

pub proof fn lemma_index_of_byte(b: Seq<u8>, c: u8)
    ensures
        index_of_byte(b, c) <= b.len(),
        index_of_byte(b, c) < b.len() ==> b[index_of_byte(b, c) as int] == c,
        forall|j: int| 0 <= j < index_of_byte(b, c) ==> b[j] != c,
    decreases b.len(),
{
    if b.len() == 0 || b[0] == c {
    } else {
        let r = b.subrange(1, b.len() as int);
        lemma_index_of_byte(r, c);
        assert forall|j: int| 0 <= j < index_of_byte(b, c) implies b[j] != c by {
            if j > 0 {
                assert(b[j] == r[j - 1]);
            }
        }
    }
}

/// The UTF-8 bytes of any string are valid UTF-8, and decode back to it.
pub proof fn lemma_encode_valid(s: Seq<char>)
    ensures
        valid_utf8(encode_utf8(s)),
        decode_utf8(encode_utf8(s)) == s,
{
    encode_utf8_valid_utf8(s);
    encode_utf8_decode_utf8(s);
}

/// In valid UTF-8, a position holding a byte that is not a continuation byte,
/// or the end, is a character boundary.
pub proof fn lemma_boundary_at(b: Seq<u8>, i: int)
    requires
        valid_utf8(b),
        0 <= i <= b.len(),
        i == b.len() || !is_continuation_byte(b[i]),
    ensures
        is_char_boundary(b, i),
{
    if i == b.len() {
        is_char_boundary_start_end_of_seq(b);
    } else {
        is_char_boundary_iff_not_is_continuation_byte(b, i);
    }
}

/// A character boundary is never followed by a continuation byte.
pub proof fn lemma_boundary_not_continuation(b: Seq<u8>, i: int)
    requires
        valid_utf8(b),
        0 <= i < b.len(),
        is_char_boundary(b, i),
    ensures
        !is_continuation_byte(b[i]),
{
    is_char_boundary_iff_not_is_continuation_byte(b, i);
}

/// After a whole character that starts at a boundary comes another boundary.
pub proof fn lemma_next_boundary(b: Seq<u8>, p: int, w: int)
    requires
        valid_utf8(b),
        0 <= p < b.len(),
        is_char_boundary(b, p),
        (w == 1 && b[p] < 0x80) || (w == 2 && 0xc0 <= b[p] <= 0xdf) || (w == 3 && 0xe0 <= b[p]
            <= 0xef) || (w == 4 && 0xf0 <= b[p] <= 0xf7),
    ensures
        p + w <= b.len(),
        is_char_boundary(b, p + w),
{
    valid_utf8_split(b, p);
    let s = b.subrange(p, b.len() as int);
    assert(s[0] == b[p]);
    assert(valid_first_scalar(s));
    assert(length_of_first_scalar(s) == w);
    let rest = pop_first_scalar(s);
    assert(valid_utf8(rest));
    if p + w < b.len() {
        assert(rest.len() > 0);
        assert(valid_first_scalar(rest));
        assert(rest[0] == b[p + w]);
        lemma_boundary_at(b, p + w);
    } else {
        lemma_boundary_at(b, p + w);
    }
}

/// A boundary of a string is a boundary of any suffix that starts at an
/// earlier boundary.
pub proof fn lemma_boundary_in_suffix(b: Seq<u8>, a: int, c: int)
    requires
        valid_utf8(b),
        0 <= a <= c <= b.len(),
        is_char_boundary(b, a),
        is_char_boundary(b, c),
    ensures
        valid_utf8(b.subrange(a, b.len() as int)),
        is_char_boundary(b.subrange(a, b.len() as int), c - a),
{
    valid_utf8_split(b, a);
    let s = b.subrange(a, b.len() as int);
    if c < b.len() {
        lemma_boundary_not_continuation(b, c);
        assert(s[c - a] == b[c]);
    }
    lemma_boundary_at(s, c - a);
}

/// Skipping a whitespace character from a boundary lands on a boundary.
pub proof fn lemma_ws_boundary(b: Seq<u8>, p: int)
    requires
        valid_utf8(b),
        0 <= p <= b.len(),
        is_char_boundary(b, p),
        ws_len(b.subrange(p, b.len() as int)) > 0,
    ensures
        is_char_boundary(b, p + ws_len(b.subrange(p, b.len() as int))),
{
    let s = b.subrange(p, b.len() as int);
    lemma_ws_len_bounds(s);
    assert(s[0] == b[p]);
    lemma_next_boundary(b, p, ws_len(s));
}

/// Whitespace at the end of a string starts on a boundary.
pub proof fn lemma_ws_end_boundary(b: Seq<u8>, e: int)
    requires
        valid_utf8(b),
        0 <= e <= b.len(),
        ws_len_end(b.subrange(0, e)) > 0,
    ensures
        is_char_boundary(b, e - ws_len_end(b.subrange(0, e))),
{
    let t = b.subrange(0, e);
    let k = ws_len_end(t);
    let q = t.subrange(e - k, e);
    lemma_ws_len_bounds(q);
    assert(q[0] == b[e - k]);
    lemma_boundary_at(b, e - k);
}

/// The position after the first occurrence of an ASCII pattern, and the
/// position of the occurrence, are boundaries.
pub proof fn lemma_ascii_boundary(b: Seq<u8>, i: int)
    requires
        valid_utf8(b),
        0 <= i < b.len(),
        b[i] < 0x80,
    ensures
        is_char_boundary(b, i),
        is_char_boundary(b, i + 1),
{
    lemma_boundary_at(b, i);
    lemma_next_boundary(b, i, 1);
}

/// Bounds of what `find` returns.
pub proof fn lemma_find_from_of(h: Seq<u8>, p: Seq<u8>)
    ensures
        find(h, p) matches Some(j) ==> 0 <= j && j + p.len() <= h.len(),
{
    lemma_find_from(h, p, 0);
}

pub proof fn lemma_find_from(h: Seq<u8>, p: Seq<u8>, i: int)
    requires
        0 <= i,
    ensures
        find_from(h, p, i) matches Some(j) ==> i <= j && j + p.len() <= h.len() && h.subrange(
            j,
            j + p.len(),
        ) == p,
    decreases h.len() - i,
{
    if i + p.len() > h.len() {
    } else if p.len() == 0 || h.subrange(i, i + p.len()) == p {
        if p.len() == 0 {
            assert(h.subrange(i, i) =~= p);
        }
    } else {
        lemma_find_from(h, p, i + 1);
    }
}

/// What `str::to_uppercase` returns for a string: its Unicode uppercase mapping.
pub uninterp spec fn uppercase(s: Seq<char>) -> Seq<char>;

/// What `str::to_lowercase` returns for a string: its Unicode lowercase mapping.
pub uninterp spec fn lowercase(s: Seq<char>) -> Seq<char>;

/// The ASCII uppercase of a character: `a`..=`z` become `A`..=`Z`, every
/// other character stays.
pub open spec fn ascii_upper_char(c: char) -> char {
    if 'a' <= c && c <= 'z' {
        ((c as u32) - 32) as char
    } else {
        c
    }
}

/// The ASCII lowercase of a character: `A`..=`Z` become `a`..=`z`, every
/// other character stays.
pub open spec fn ascii_lower_char(c: char) -> char {
    if 'A' <= c && c <= 'Z' {
        ((c as u32) + 32) as char
    } else {
        c
    }
}

/// The ASCII uppercase of a text.
pub open spec fn ascii_upper(s: Seq<char>) -> Seq<char> {
    s.map_values(|c: char| ascii_upper_char(c))
}

/// The ASCII lowercase of a text.
pub open spec fn ascii_lower(s: Seq<char>) -> Seq<char> {
    s.map_values(|c: char| ascii_lower_char(c))
}

/// What `to_uppercase` gives for a text: its ASCII uppercase where the text
/// is ASCII, else the Unicode mapping `uppercase`.
pub open spec fn upper_text(s: Seq<char>) -> Seq<char> {
    if is_ascii_chars(s) {
        ascii_upper(s)
    } else {
        uppercase(s)
    }
}

/// Calls `str::to_uppercase`. The contract says that the result is
/// `uppercase` of the string's characters, so that equal texts give equal
/// results, and that on ASCII text it is the ASCII uppercase (as the
/// documentation of `str::to_uppercase` and `str::to_ascii_uppercase`
/// shows). Nothing is stated about the Unicode mapping of other characters.
#[verifier::external_body]
pub fn to_uppercase(s: &str) -> (r: String)
    ensures
        r@ == uppercase(s@),
        is_ascii_chars(s@) ==> r@ == ascii_upper(s@),
{
    s.to_uppercase()
}

/// Calls `str::to_lowercase`. The contract says that the result is
/// `lowercase` of the string's characters, and that on ASCII text it is the
/// ASCII lowercase (as the documentation of `str::to_lowercase` and
/// `str::to_ascii_lowercase` shows). Nothing is stated about the Unicode
/// mapping of other characters.
#[verifier::external_body]
pub fn to_lowercase(s: &str) -> (r: String)
    ensures
        r@ == lowercase(s@),
        is_ascii_chars(s@) ==> r@ == ascii_lower(s@),
{
    s.to_lowercase()
}

// ---------------------------------------------------------------------------
// Executable helpers
// ---------------------------------------------------------------------------
/// `ws_len` of `b[p..q]`.
fn ws_len_window(b: &[u8], p: usize, q: usize) -> (k: usize)
    requires
        p <= q <= b@.len(),
    ensures
        k == ws_len(b@.subrange(p as int, q as int)),
{
    let n = q - p;
    if n >= 1 && ((0x09 <= b[p] && b[p] <= 0x0d) || b[p] == 0x20) {
        1
    } else if n >= 2 && b[p] == 0xc2 && (b[p + 1] == 0x85 || b[p + 1] == 0xa0) {
        2
    } else if n >= 3 && b[p] == 0xe1 && b[p + 1] == 0x9a && b[p + 2] == 0x80 {
        3
    } else if n >= 3 && b[p] == 0xe2 && b[p + 1] == 0x80 && ((0x80 <= b[p + 2] && b[p + 2]
        <= 0x8a) || b[p + 2] == 0xa8 || b[p + 2] == 0xa9 || b[p + 2] == 0xaf) {
        3
    } else if n >= 3 && b[p] == 0xe2 && b[p + 1] == 0x81 && b[p + 2] == 0x9f {
        3
    } else if n >= 3 && b[p] == 0xe3 && b[p + 1] == 0x80 && b[p + 2] == 0x80 {
        3
    } else {
        0
    }
}

/// `ws_len_end` of `b[..e]`.
fn ws_len_end_at(b: &[u8], e: usize) -> (k: usize)
    requires
        e <= b@.len(),
    ensures
        k == ws_len_end(b@.subrange(0, e as int)),
{
    let ghost t = b@.subrange(0, e as int);
    if e >= 1 && ws_len_window(b, e - 1, e) == 1 {
        assert(t.subrange(e - 1, e as int) =~= b@.subrange(e - 1, e as int));
        1
    } else if e >= 2 && ws_len_window(b, e - 2, e) == 2 {
        assert(t.subrange(e - 1, e as int) =~= b@.subrange(e - 1, e as int));
        assert(t.subrange(e - 2, e as int) =~= b@.subrange(e - 2, e as int));
        2
    } else if e >= 3 && ws_len_window(b, e - 3, e) == 3 {
        assert(t.subrange(e - 1, e as int) =~= b@.subrange(e - 1, e as int));
        assert(t.subrange(e - 2, e as int) =~= b@.subrange(e - 2, e as int));
        assert(t.subrange(e - 3, e as int) =~= b@.subrange(e - 3, e as int));
        3
    } else {
        proof {
            if e >= 1 {
                assert(t.subrange(e - 1, e as int) =~= b@.subrange(e - 1, e as int));
            }
            if e >= 2 {
                assert(t.subrange(e - 2, e as int) =~= b@.subrange(e - 2, e as int));
            }
            if e >= 3 {
                assert(t.subrange(e - 3, e as int) =~= b@.subrange(e - 3, e as int));
            }
        }
        0
    }
}

/// Number of leading whitespace bytes of `s[p..]`.
pub fn lead_ws_from(s: &str, p: usize) -> (r: usize)
    requires
        can_slice(s.spec_bytes(), p as int),
    ensures
        r == p + lead_ws(s.spec_bytes().subrange(p as int, s.spec_bytes().len() as int)),
        can_slice(s.spec_bytes(), r as int),
        ws_len(s.spec_bytes().subrange(r as int, s.spec_bytes().len() as int)) == 0,
{
    let b = s.as_bytes();
    let n = b.len();
    let ghost bs = b@;
    proof {
        lemma_encode_valid(s@);
    }
    let mut q = p;
    let mut k = ws_len_window(b, q, n);
    assert(bs.subrange(p as int, n as int).len() == n - p);
    while k > 0
        invariant
            bs == b@,
            bs == s.spec_bytes(),
            valid_utf8(bs),
            n == bs.len(),
            p <= q <= n,
            is_char_boundary(bs, q as int),
            k == ws_len(bs.subrange(q as int, n as int)),
            q + lead_ws(bs.subrange(q as int, n as int)) == p + lead_ws(
                bs.subrange(p as int, n as int),
            ),
        decreases n - q,
    {
        proof {
            let sub = bs.subrange(q as int, n as int);
            lemma_ws_len_bounds(sub);
            assert(sub.subrange(k as int, sub.len() as int) =~= bs.subrange(q + k, n as int));
            lemma_ws_boundary(bs, q as int);
        }
        q = q + k;
        k = ws_len_window(b, q, n);
    }
    q
}

/// `&s[p..]`, or `None` where that slice panics.
pub fn suffix_str(s: &str, p: usize) -> (r: Option<&str>)
    ensures
        r is Some <==> can_slice(s.spec_bytes(), p as int),
        r matches Some(t) ==> t.spec_bytes() == s.spec_bytes().subrange(
            p as int,
            s.spec_bytes().len() as int,
        ),
{
    if p <= s.as_bytes().len() && s.is_char_boundary(p) {
        let (_, t) = s.split_at(p);
        Some(t)
    } else {
        None
    }
}

/// `&s[..p]`, or `None` where that slice panics.
pub fn prefix_str(s: &str, p: usize) -> (r: Option<&str>)
    ensures
        r is Some <==> can_slice(s.spec_bytes(), p as int),
        r matches Some(t) ==> t.spec_bytes() == s.spec_bytes().subrange(0, p as int),
{
    if p <= s.as_bytes().len() && s.is_char_boundary(p) {
        let (t, _) = s.split_at(p);
        Some(t)
    } else {
        None
    }
}

/// `&s[a..c]`, or `None` where that slice panics.
pub fn range_str(s: &str, a: usize, c: usize) -> (r: Option<&str>)
    ensures
        r is Some <==> range(s.spec_bytes(), a as int, c as int) is Some,
        r matches Some(t) ==> range(s.spec_bytes(), a as int, c as int) == Some(t.spec_bytes()),
{
    let n = s.as_bytes().len();
    if a <= c && c <= n && s.is_char_boundary(a) && s.is_char_boundary(c) {
        Some(substr(s, a, c))
    } else {
        None
    }
}

/// `s[p..].trim_start()` together with the position where it starts, or
/// `None` where the slice panics.
pub fn trimmed_suffix(s: &str, p: usize) -> (r: Option<(usize, &str)>)
    ensures
        r is Some <==> can_slice(s.spec_bytes(), p as int),
        r matches Some((q, t)) ==> {
            &&& q == skip_ws(s.spec_bytes(), p as int)
            &&& t.spec_bytes() == trim_start(
                s.spec_bytes().subrange(p as int, s.spec_bytes().len() as int),
            )
            &&& t.spec_bytes() == s.spec_bytes().subrange(q as int, s.spec_bytes().len() as int)
            &&& can_slice(s.spec_bytes(), q as int)
        },
{
    match suffix_str(s, p) {
        None => None,
        Some(r0) => {
            let q = lead_ws_from(s, p);
            let t = trim_start_str(r0);
            proof {
                let b = s.spec_bytes();
                let sub = b.subrange(p as int, b.len() as int);
                lemma_lead_ws_bound(sub);
                assert(sub.subrange(lead_ws(sub) as int, sub.len() as int) =~= b.subrange(
                    q as int,
                    b.len() as int,
                ));
            }
            Some((q, t))
        },
    }
}

/// `&s[a..c]` where both ends are known boundaries.
pub fn substr(s: &str, a: usize, c: usize) -> (r: &str)
    requires
        a <= c <= s.spec_bytes().len(),
        is_char_boundary(s.spec_bytes(), a as int),
        is_char_boundary(s.spec_bytes(), c as int),
    ensures
        r.spec_bytes() == s.spec_bytes().subrange(a as int, c as int),
{
    proof {
        lemma_encode_valid(s@);
        lemma_boundary_in_suffix(s.spec_bytes(), a as int, c as int);
    }
    let (_, t) = s.split_at(a);
    let (u, _) = t.split_at(c - a);
    u
}

/// `str::trim_start`.
pub fn trim_start_str(s: &str) -> (r: &str)
    ensures
        r.spec_bytes() == trim_start(s.spec_bytes()),
{
    proof {
        lemma_encode_valid(s@);
        is_char_boundary_start_end_of_seq(s.spec_bytes());
    }
    let p = lead_ws_from(s, 0);
    assert(s.spec_bytes().subrange(0, s.spec_bytes().len() as int) =~= s.spec_bytes());
    let (_, t) = s.split_at(p);
    t
}

/// `str::trim_end`.
pub fn trim_end_str(s: &str) -> (r: &str)
    ensures
        r.spec_bytes() == trim_end(s.spec_bytes()),
{
    let b = s.as_bytes();
    let n = b.len();
    let ghost bs = b@;
    proof {
        lemma_encode_valid(s@);
        is_char_boundary_start_end_of_seq(bs);
        assert(bs.subrange(0, n as int) =~= bs);
    }
    let mut e = n;
    let mut k = ws_len_end_at(b, e);
    while k > 0
        invariant
            bs == b@,
            bs == s.spec_bytes(),
            valid_utf8(bs),
            n == bs.len(),
            e <= n,
            is_char_boundary(bs, e as int),
            k == ws_len_end(bs.subrange(0, e as int)),
            e - trail_ws(bs.subrange(0, e as int)) == n - trail_ws(bs),
        decreases e,
    {
        proof {
            let t = bs.subrange(0, e as int);
            trail_ws_step_bound(t);
            assert(t.subrange(0, t.len() - k) =~= bs.subrange(0, e - k));
            lemma_ws_end_boundary(bs, e as int);
        }
        e = e - k;
        k = ws_len_end_at(b, e);
    }
    let (t, _) = s.split_at(e);
    t
}

/// `str::trim`.
pub fn trim_str(s: &str) -> (r: &str)
    ensures
        r.spec_bytes() == trim(s.spec_bytes()),
{
    trim_end_str(trim_start_str(s))
}

/// True when `h[i..i + p.len()]` equals `p`.
fn matches_at(h: &[u8], p: &[u8], i: usize) -> (r: bool)
    requires
        i + p@.len() <= h@.len(),
    ensures
        r == (h@.subrange(i as int, i + p@.len()) == p@),
{
    let m = p.len();
    let n = h.len();
    let mut j: usize = 0;
    while j < m
        invariant
            m == p@.len(),
            n == h@.len(),
            i + m <= h@.len(),
            j <= m,
            forall|k: int| 0 <= k < j ==> h@[i + k] == p@[k],
        decreases m - j,
    {
        if h[i + j] != p[j] {
            assert(h@.subrange(i as int, i + m)[j as int] != p@[j as int]);
            return false;
        }
        j = j + 1;
    }
    assert(h@.subrange(i as int, i + m) =~= p@);
    true
}

/// `str::find` of a pattern: the byte offset of its first occurrence.
pub fn find_str(s: &str, pat: &str) -> (r: Option<usize>)
    ensures
        match r {
            Some(i) => find(s.spec_bytes(), pat.spec_bytes()) == Some(i as int),
            None => find(s.spec_bytes(), pat.spec_bytes()) is None,
        },
{
    let h = s.as_bytes();
    let p = pat.as_bytes();
    let n = h.len();
    let m = p.len();
    if m > n {
        return None;
    }
    let mut i: usize = 0;
    while i <= n - m
        invariant
            h@ == s.spec_bytes(),
            p@ == pat.spec_bytes(),
            n == h@.len(),
            m == p@.len(),
            m <= n,
            i <= n - m + 1,
            find(h@, p@) == find_from(h@, p@, i as int),
        decreases n - m + 1 - i,
    {
        if m == 0 || matches_at(h, p, i) {
            return Some(i);
        }
        i = i + 1;
    }
    None
}

/// `str::starts_with` of a pattern.
pub fn starts_with_str(s: &str, pat: &str) -> (r: bool)
    ensures
        r == starts_with(s.spec_bytes(), pat.spec_bytes()),
{
    let h = s.as_bytes();
    let p = pat.as_bytes();
    if p.len() > h.len() {
        false
    } else {
        matches_at(h, p, 0)
    }
}

/// Equality of two strings.
pub fn str_eq(a: &str, c: &str) -> (r: bool)
    ensures
        r == (a@ == c@),
{
    proof {
        lemma_encode_valid(a@);
        lemma_encode_valid(c@);
    }
    let x = a.as_bytes();
    let y = c.as_bytes();
    if x.len() != y.len() {
        return false;
    }
    let r = matches_at(x, y, 0);
    assert(x@.subrange(0, x@.len() as int) =~= x@);
    r
}

/// Index of the first byte `c` at or after `p`, or the end.
pub fn index_of_byte_from(s: &str, p: usize, c: u8) -> (r: usize)
    requires
        p <= s.spec_bytes().len(),
    ensures
        r == p + index_of_byte(s.spec_bytes().subrange(p as int, s.spec_bytes().len() as int), c),
        p <= r <= s.spec_bytes().len(),
        r < s.spec_bytes().len() ==> s.spec_bytes()[r as int] == c,
{
    let b = s.as_bytes();
    let n = b.len();
    let mut q = p;
    proof {
        lemma_index_of_byte(b@.subrange(p as int, n as int), c);
    }
    while q < n && b[q] != c
        invariant
            b@ == s.spec_bytes(),
            n == b@.len(),
            p <= q <= n,
            q + index_of_byte(b@.subrange(q as int, n as int), c) == p + index_of_byte(
                b@.subrange(p as int, n as int),
                c,
            ),
        decreases n - q,
    {
        proof {
            let sub = b@.subrange(q as int, n as int);
            assert(sub.subrange(1, sub.len() as int) =~= b@.subrange(q + 1, n as int));
        }
        q = q + 1;
    }
    proof {
        if q == n {
            assert(b@.subrange(q as int, n as int).len() == 0);
        } else {
            assert(b@.subrange(q as int, n as int)[0] == b@[q as int]);
        }
    }
    q
}

/// Length of the run of non-whitespace bytes at `p`.
pub fn word_end(s: &str, p: usize) -> (r: usize)
    requires
        p <= s.spec_bytes().len(),
    ensures
        r == p + word_len(s.spec_bytes().subrange(p as int, s.spec_bytes().len() as int)),
        r <= s.spec_bytes().len(),
        r < s.spec_bytes().len() ==> ws_len(
            s.spec_bytes().subrange(r as int, s.spec_bytes().len() as int),
        ) > 0,
{
    let b = s.as_bytes();
    let n = b.len();
    let mut q = p;
    while q < n && ws_len_window(b, q, n) == 0
        invariant
            b@ == s.spec_bytes(),
            n == b@.len(),
            p <= q <= n,
            q + word_len(b@.subrange(q as int, n as int)) == p + word_len(
                b@.subrange(p as int, n as int),
            ),
        decreases n - q,
    {
        proof {
            let sub = b@.subrange(q as int, n as int);
            assert(sub.subrange(1, sub.len() as int) =~= b@.subrange(q + 1, n as int));
        }
        q = q + 1;
    }
    proof {
        if q == n {
            assert(b@.subrange(q as int, n as int).len() == 0);
        }
    }
    q
}

/// `str::split_whitespace`, collected.
pub fn split_words(s: &str) -> (r: Vec<&str>)
    ensures
        r@.len() == words(s.spec_bytes()).len(),
        forall|i: int| 0 <= i < r@.len() ==> #[trigger] r@[i].spec_bytes() == words(
            s.spec_bytes(),
        )[i],
{
    let ghost bs = s.spec_bytes();
    let n = s.as_bytes().len();
    proof {
        lemma_encode_valid(s@);
        is_char_boundary_start_end_of_seq(bs);
        assert(bs.subrange(0, n as int) =~= bs);
    }
    let mut r: Vec<&str> = Vec::new();
    let mut q: usize = 0;
    loop
        invariant
            bs == s.spec_bytes(),
            valid_utf8(bs),
            n == bs.len(),
            q <= n,
            is_char_boundary(bs, q as int),
            words(bs) == Seq::new(r@.len(), |i: int| r@[i].spec_bytes()) + words(
                bs.subrange(q as int, n as int),
            ),
        decreases n - q,
    {
        let ghost sub = bs.subrange(q as int, n as int);
        let q2 = lead_ws_from(s, q);
        proof {
            lemma_lead_ws_bound(sub);
            assert(trim_start(sub) =~= bs.subrange(q2 as int, n as int));
        }
        if q2 == n {
            assert(words(sub) == Seq::<Seq<u8>>::empty());
            assert(words(bs) =~= Seq::new(r@.len(), |i: int| r@[i].spec_bytes()));
            return r;
        }
        let e = word_end(s, q2);
        proof {
            let t = bs.subrange(q2 as int, n as int);
            assert(t.len() > 0);
            assert(word_len(t) > 0);
            if e < n {
                let z = bs.subrange(e as int, n as int);
                lemma_ws_len_bounds(z);
                assert(z[0] == bs[e as int]);
            }
            lemma_boundary_at(bs, e as int);
            assert(t.subrange(0, (e - q2) as int) =~= bs.subrange(q2 as int, e as int));
            assert(t.subrange((e - q2) as int, t.len() as int) =~= bs.subrange(e as int, n as int));
        }
        let w = substr(s, q2, e);
        let ghost before = Seq::new(r@.len(), |i: int| r@[i].spec_bytes());
        r.push(w);
        proof {
            assert(Seq::new(r@.len(), |i: int| r@[i].spec_bytes()) =~= before.push(w.spec_bytes()));
            assert(words(sub) == seq![w.spec_bytes()] + words(bs.subrange(e as int, n as int)));
            assert(words(bs) =~= Seq::new(r@.len(), |i: int| r@[i].spec_bytes()) + words(
                bs.subrange(e as int, n as int),
            ));
        }
        q = e;
    }
}

} // verus!
