//! UTF-8 model of strings: byte views, character boundaries, and the slicing,
//! splicing and scanning primitives that the text-edit kernel is built from.

use vstd::prelude::*;
use vstd::utf8::*;
use vstd::string::*;

verus! {

broadcast use {encode_utf8_valid_utf8, encode_utf8_decode_utf8};

/// UTF-8 bytes of a character sequence.
pub open spec fn text_bytes(s: Seq<char>) -> Seq<u8> {
    encode_utf8(s)
}

/// Byte width of one character.
pub open spec fn char_width(c: char) -> int {
    encode_scalar(c as u32).len() as int
}

/// Whether byte offset `i` starts a character (or is the end) of `s`'s encoding.
pub open spec fn boundary(s: Seq<char>, i: int) -> bool {
    is_char_boundary(text_bytes(s), i)
}

/// The characters encoded by bytes `[lo, hi)` of `s`'s encoding.
pub open spec fn chars_between(s: Seq<char>, lo: int, hi: int) -> Seq<char> {
    decode_utf8(text_bytes(s).subrange(lo, hi))
}

/// Number of characters before byte offset `b` of `s`.
pub open spec fn chars_before(s: Seq<char>, b: int) -> int {
    chars_between(s, 0, b).len() as int
}

/// Byte offset of character index `k` of `s`.
pub open spec fn byte_offset(s: Seq<char>, k: int) -> int {
    text_bytes(s.take(k)).len() as int
}

/// Encoding distributes over concatenation.
pub proof fn lemma_encode_append(a: Seq<char>, b: Seq<char>)
    ensures
        encode_utf8(a + b) == encode_utf8(a) + encode_utf8(b),
    decreases a.len(),
{
    if a.len() == 0 {
        assert(a + b =~= b);
        assert(encode_utf8(a) + encode_utf8(b) =~= encode_utf8(b));
    } else {
        assert((a + b).drop_first() =~= a.drop_first() + b);
        assert((a + b)[0] == a[0]);
        lemma_encode_append(a.drop_first(), b);
        assert(encode_utf8(a + b) =~= encode_utf8(a) + encode_utf8(b));
    }
}

/// Every character takes between one and four bytes.
pub proof fn lemma_char_width(c: char)
    ensures
        1 <= char_width(c) <= 4,
{
}

/// Encoding of a single character.
pub proof fn lemma_encode_single(c: char)
    ensures
        encode_utf8(seq![c]) == encode_scalar(c as u32),
{
    let one = seq![c];
    assert(one[0] == c);
    assert(one.drop_first() =~= Seq::<char>::empty());
    assert(encode_utf8(Seq::<char>::empty()) =~= Seq::<u8>::empty());
    assert(encode_utf8(one) == encode_scalar(c as u32) + encode_utf8(one.drop_first()));
    assert(encode_utf8(one) =~= encode_scalar(c as u32));
}

/// The encoding is at least as long as the character count.
pub proof fn lemma_encode_len(s: Seq<char>)
    ensures
        encode_utf8(s).len() >= s.len(),
    decreases s.len(),
{
    if s.len() > 0 {
        lemma_encode_len(s.drop_first());
    }
}

/// Facts about the bytes of a valid string that sit on character boundaries.
pub proof fn lemma_boundary_basics(s: Seq<char>)
    ensures
        valid_utf8(text_bytes(s)),
        boundary(s, 0),
        boundary(s, text_bytes(s).len() as int),
        forall|i: int| #[trigger] boundary(s, i) ==> 0 <= i <= text_bytes(s).len(),
{
    let bytes = text_bytes(s);
    is_char_boundary_start_end_of_seq(bytes);
    assert forall|i: int| #[trigger] boundary(s, i) implies 0 <= i <= text_bytes(s).len() by {
        if i != 0 {
            assert(!(i < 0 || bytes.len() < i));
        }
    }
}

/// Within a valid byte sequence, a boundary inside the range `[lo, hi]` of two boundaries is
/// exactly a boundary of the sub-sequence `[lo, hi)` (shifted by `lo`), and that sub-sequence
/// is itself valid.
pub proof fn lemma_sub_boundary(bytes: Seq<u8>, lo: int, hi: int)
    requires
        valid_utf8(bytes),
        is_char_boundary(bytes, lo),
        is_char_boundary(bytes, hi),
        lo <= hi,
    ensures
        valid_utf8(bytes.subrange(lo, hi)),
        forall|i: int|
            lo <= i <= hi ==> (is_char_boundary(bytes.subrange(lo, hi), i - lo)
                <==> #[trigger] is_char_boundary(bytes, i)),
{
    is_char_boundary_start_end_of_seq(bytes);
    assert(0 <= lo && hi <= bytes.len()) by {
        if lo != 0 {
            assert(!(lo < 0 || bytes.len() < lo));
        }
        if hi != 0 {
            assert(!(hi < 0 || bytes.len() < hi));
        }
    }
    valid_utf8_split(bytes, hi);
    let pre = bytes.subrange(0, hi);
    assert(is_char_boundary(pre, lo)) by {
        if lo < hi {
            is_char_boundary_iff_not_is_continuation_byte(bytes, lo);
            is_char_boundary_iff_not_is_continuation_byte(pre, lo);
        } else {
            is_char_boundary_start_end_of_seq(pre);
        }
    }
    valid_utf8_split(pre, lo);
    assert(pre.subrange(lo, pre.len() as int) =~= bytes.subrange(lo, hi));
    let sub = bytes.subrange(lo, hi);
    is_char_boundary_start_end_of_seq(sub);
    assert forall|i: int| lo <= i <= hi implies (is_char_boundary(sub, i - lo)
        <==> #[trigger] is_char_boundary(bytes, i)) by {
        if i < hi {
            if i > lo {
                is_char_boundary_iff_not_is_continuation_byte(bytes, i);
                is_char_boundary_iff_not_is_continuation_byte(sub, i - lo);
            }
        }
    }
}

/// Splitting a string at a boundary splits its characters: the bytes before the boundary
/// encode a prefix of the characters, the bytes after encode the rest.
pub proof fn lemma_split_chars(s: Seq<char>, b: int)
    requires
        boundary(s, b),
    ensures
        ({
            let k = chars_before(s, b);
            &&& 0 <= k <= s.len()
            &&& s.take(k) == chars_between(s, 0, b)
            &&& s.skip(k) == chars_between(s, b, text_bytes(s).len() as int)
            &&& text_bytes(s.take(k)) == text_bytes(s).subrange(0, b)
            &&& text_bytes(s.skip(k)) == text_bytes(s).subrange(b, text_bytes(s).len() as int)
            &&& byte_offset(s, k) == b
        }),
{
    let bytes = text_bytes(s);
    lemma_boundary_basics(s);
    let n = bytes.len() as int;
    decode_utf8_split(bytes, b);
    valid_utf8_split(bytes, b);
    let l = decode_utf8(bytes.subrange(0, b));
    let r = decode_utf8(bytes.subrange(b, n));
    assert(s == l + r);
    assert(s.take(l.len() as int) =~= l);
    assert(s.skip(l.len() as int) =~= r);
    decode_utf8_encode_utf8(bytes.subrange(0, b));
    decode_utf8_encode_utf8(bytes.subrange(b, n));
}

/// The byte offset of any character index is a boundary, and the encoding splits there.
pub proof fn lemma_take_boundary(s: Seq<char>, k: int)
    requires
        0 <= k <= s.len(),
    ensures
        boundary(s, byte_offset(s, k)),
        text_bytes(s) == text_bytes(s.take(k)) + text_bytes(s.skip(k)),
        chars_before(s, byte_offset(s, k)) == k,
    decreases k,
{
    assert(s =~= s.take(k) + s.skip(k));
    lemma_encode_append(s.take(k), s.skip(k));
    lemma_prefix_boundary(s.take(k), s.skip(k));
    let b = byte_offset(s, k);
    lemma_split_chars(s, b);
    let j = chars_before(s, b);
    // both s.take(k) and s.take(j) encode to the same bytes, hence are equal
    assert(text_bytes(s.take(j)) == text_bytes(s).subrange(0, b));
    assert(text_bytes(s).subrange(0, b) =~= text_bytes(s.take(k)));
    assert(s.take(j) == s.take(k)) by {
        encode_utf8_decode_utf8(s.take(j));
        encode_utf8_decode_utf8(s.take(k));
    }
    assert(s.take(j).len() == j);
}

/// The end of the first part of a concatenation is a boundary of the whole.
pub proof fn lemma_prefix_boundary(a: Seq<char>, b: Seq<char>)
    ensures
        is_char_boundary(encode_utf8(a + b), encode_utf8(a).len() as int),
    decreases a.len(),
{
    lemma_encode_append(a, b);
    if a.len() > 0 {
        let ab = a + b;
        let bytes = encode_utf8(ab);
        assert(ab.drop_first() =~= a.drop_first() + b);
        assert(ab[0] == a[0]);
        encode_utf8_first_scalar(ab);
        lemma_encode_append(a.drop_first(), b);
        assert(pop_first_scalar(bytes) =~= encode_utf8(a.drop_first() + b));
        lemma_prefix_boundary(a.drop_first(), b);
        lemma_char_width(a[0]);
    }
}

/// Byte offsets of character indices grow strictly with the index.
pub proof fn lemma_byte_offset_strict(s: Seq<char>, j: int, k: int)
    requires
        0 <= j < k <= s.len(),
    ensures
        byte_offset(s, j) < byte_offset(s, k),
{
    assert(s.take(k) =~= s.take(j) + s.subrange(j, k));
    lemma_encode_append(s.take(j), s.subrange(j, k));
    lemma_encode_len(s.subrange(j, k));
}

/// Byte offset of index `k + 1` is that of `k` plus the width of character `k`.
pub proof fn lemma_byte_offset_step(s: Seq<char>, k: int)
    requires
        0 <= k < s.len(),
    ensures
        byte_offset(s, k + 1) == byte_offset(s, k) + char_width(s[k]),
{
    assert(s.take(k + 1) =~= s.take(k) + seq![s[k]]);
    lemma_encode_append(s.take(k), seq![s[k]]);
    lemma_encode_single(s[k]);
}


/// Whether the UTF-8 encoding of `s` has a length that `usize` can hold.
pub open spec fn fits(s: Seq<char>) -> bool {
    text_bytes(s).len() <= usize::MAX
}

/// `r` is the first boundary after `idx` of `s`, or the end when `idx` is at or past it.
pub open spec fn is_next_boundary(s: Seq<char>, idx: int, r: int) -> bool {
    &&& idx >= text_bytes(s).len() ==> r == text_bytes(s).len()
    &&& idx < text_bytes(s).len() ==> idx < r && boundary(s, r) && forall|j: int|
        idx < j < r ==> !#[trigger] boundary(s, j)
}

/// `r` is the last boundary before `idx` of `s` (0 when `idx` is 0).
pub open spec fn is_prev_boundary(s: Seq<char>, idx: int, r: int) -> bool {
    &&& idx == 0 ==> r == 0
    &&& idx > 0 ==> r < idx && boundary(s, r) && forall|j: int|
        r < j < idx ==> !#[trigger] boundary(s, j)
}

/// `r` is the last boundary at or before `idx` of `s`.
pub open spec fn is_floor_boundary(s: Seq<char>, idx: int, r: int) -> bool {
    &&& boundary(s, r)
    &&& r <= idx
    &&& forall|j: int| r < j <= idx ==> !#[trigger] boundary(s, j)
}

/// Byte offset of character `k` of `s`, or the byte length when `k` is past the end.
pub open spec fn char_byte(s: Seq<char>, k: int) -> int {
    if k < s.len() {
        byte_offset(s, k)
    } else {
        text_bytes(s).len() as int
    }
}

/// The last boundary at or before `idx` (for `idx >= 0` there is exactly one).
pub open spec fn floor_boundary(s: Seq<char>, idx: int) -> int {
    choose|r: int| is_floor_boundary(s, idx, r)
}

/// For a non-negative offset the floor boundary exists.
pub proof fn lemma_floor_exists(s: Seq<char>, idx: int)
    requires
        idx >= 0,
    ensures
        is_floor_boundary(s, idx, floor_boundary(s, idx)),
    decreases idx,
{
    lemma_boundary_basics(s);
    if boundary(s, idx) {
        assert(is_floor_boundary(s, idx, idx));
    } else {
        lemma_floor_exists(s, idx - 1);
        assert(is_floor_boundary(s, idx, floor_boundary(s, idx - 1)));
    }
}

/// Every boundary is the byte offset of the character index it starts.
pub proof fn lemma_boundary_index(s: Seq<char>, b: int)
    requires
        boundary(s, b),
    ensures
        0 <= chars_before(s, b) <= s.len(),
        byte_offset(s, chars_before(s, b)) == b,
{
    lemma_split_chars(s, b);
}

/// No boundary lies strictly inside the encoding of one character.
pub proof fn lemma_no_boundary_inside(s: Seq<char>, k: int, j: int)
    requires
        0 <= k < s.len(),
        byte_offset(s, k) < j < byte_offset(s, k + 1),
    ensures
        !boundary(s, j),
{
    if boundary(s, j) {
        lemma_boundary_index(s, j);
        let m = chars_before(s, j);
        if m <= k {
            if m < k {
                lemma_byte_offset_strict(s, m, k);
            }
        } else {
            if m > k + 1 {
                lemma_byte_offset_strict(s, k + 1, m);
            }
        }
    }
}

/// The boundary before the start of character `k` is the start of character `k - 1`, the one
/// after it the start of character `k + 1`.
pub proof fn lemma_neighbour_boundaries(s: Seq<char>, k: int)
    requires
        0 <= k <= s.len(),
    ensures
        k > 0 ==> is_prev_boundary(s, byte_offset(s, k), byte_offset(s, k - 1)),
        k < s.len() ==> is_next_boundary(s, byte_offset(s, k), byte_offset(s, k + 1)),
        boundary(s, byte_offset(s, k)),
{
    lemma_take_boundary(s, k);
    lemma_boundary_basics(s);
    assert(s.take(s.len() as int) =~= s);
    if k > 0 {
        lemma_take_boundary(s, k - 1);
        lemma_byte_offset_strict(s, k - 1, k);
        assert forall|j: int| byte_offset(s, k - 1) < j < byte_offset(s, k) implies !#[trigger] boundary(
            s,
            j,
        ) by {
            lemma_no_boundary_inside(s, k - 1, j);
        }
    }
    if k < s.len() {
        lemma_take_boundary(s, k + 1);
        lemma_byte_offset_strict(s, k, k + 1);
        if k + 1 < s.len() {
            lemma_byte_offset_strict(s, k + 1, s.len() as int);
        }
        assert forall|j: int| byte_offset(s, k) < j < byte_offset(s, k + 1) implies !#[trigger] boundary(
            s,
            j,
        ) by {
            lemma_no_boundary_inside(s, k, j);
        }
    }
}

/// The boundary characterizations each determine a unique offset.
pub proof fn lemma_boundary_unique(s: Seq<char>, idx: int, r1: int, r2: int)
    requires
        idx >= 0,
    ensures
        is_next_boundary(s, idx, r1) && is_next_boundary(s, idx, r2) ==> r1 == r2,
        is_prev_boundary(s, idx, r1) && is_prev_boundary(s, idx, r2) ==> r1 == r2,
        is_floor_boundary(s, idx, r1) && is_floor_boundary(s, idx, r2) ==> r1 == r2,
{
    if is_prev_boundary(s, idx, r1) && is_prev_boundary(s, idx, r2) && idx > 0 {
        assert(boundary(s, r1) && boundary(s, r2));
    }
    if is_next_boundary(s, idx, r1) && is_next_boundary(s, idx, r2) && idx < text_bytes(s).len() {
        assert(boundary(s, r1) && boundary(s, r2));
    }
}

/// Byte length of a string slice.
pub fn byte_len(s: &str) -> (r: usize)
    requires
        fits(s@),
    ensures
        r == text_bytes(s@).len(),
{
    s.len()
}

/// Whether byte offset `i` of `s` starts a character or is the end.
pub fn is_boundary(s: &str, i: usize) -> (r: bool)
    ensures
        r == boundary(s@, i as int),
{
    s.is_char_boundary(i)
}

/// The bytes `[lo, hi)` of `s` as a string slice.
pub fn slice_bytes(s: &str, lo: usize, hi: usize) -> (r: &str)
    requires
        boundary(s@, lo as int),
        boundary(s@, hi as int),
        lo <= hi,
    ensures
        text_bytes(r@) == text_bytes(s@).subrange(lo as int, hi as int),
        r@ == chars_between(s@, lo as int, hi as int),
{
    let bytes = Ghost(text_bytes(s@));
    proof {
        lemma_boundary_basics(s@);
        lemma_sub_boundary(bytes@, 0, bytes@.len() as int);
        assert(bytes@.subrange(0, bytes@.len() as int) =~= bytes@);
    }
    let (_, rest) = s.split_at(lo);
    proof {
        lemma_sub_boundary(bytes@, lo as int, bytes@.len() as int);
        assert(rest.spec_bytes() =~= bytes@.subrange(lo as int, bytes@.len() as int));
        assert(is_char_boundary(rest.spec_bytes(), hi - lo));
    }
    let (mid, _) = rest.split_at(hi - lo);
    proof {
        assert(mid.spec_bytes() =~= bytes@.subrange(lo as int, hi as int));
        encode_utf8_decode_utf8(mid@);
    }
    mid
}

/// A new string holding the characters of `a` followed by those of `b`.
pub fn concat(a: &str, b: &str) -> (r: String)
    ensures
        r@ == a@ + b@,
{
    let mut out = String::from_str(a);
    out.append(b);
    out
}

/// UTF-8 byte width of a character.
pub fn char_width_of(c: char) -> (r: usize)
    ensures
        r == char_width(c),
        1 <= r <= 4,
{
    let v: u32 = c as u32;
    proof {
        char_is_scalar(c);
    }
    if v <= 0x7F {
        1
    } else if v <= 0x7FF {
        2
    } else if v <= 0xFFFF {
        3
    } else {
        4
    }
}

/// The character starting at boundary `b` of `s` (which must not be the end).
pub fn char_at(s: &str, b: usize) -> (r: char)
    requires
        boundary(s@, b as int),
        (b as int) < text_bytes(s@).len(),
        fits(s@),
    ensures
        0 <= chars_before(s@, b as int) < s@.len(),
        r == s@[chars_before(s@, b as int)],
        b + char_width(r) == byte_offset(s@, chars_before(s@, b as int) + 1),
{
    proof {
        lemma_boundary_basics(s@);
        lemma_split_chars(s@, b as int);
    }
    let n = byte_len(s);
    let rest = slice_bytes(s, b, n);
    let k = Ghost(chars_before(s@, b as int));
    proof {
        assert(rest@ == s@.skip(k@));
        assert(k@ < s@.len()) by {
            if k@ == s@.len() {
                assert(s@.take(k@) =~= s@);
            }
        }
        lemma_byte_offset_step(s@, k@);
    }
    rest.get_char(0)
}

/// Number of characters of `s`.
pub fn char_count(s: &str) -> (r: usize)
    ensures
        r == s@.len(),
{
    s.unicode_len()
}

/// Start byte of the character left of `idx` (0 when `idx` is 0): the last boundary at or
/// before `idx - 1`.
pub fn prev_char_boundary(s: &str, idx: usize) -> (r: usize)
    ensures
        is_prev_boundary(s@, idx as int, r as int),
{
    proof {
        lemma_boundary_basics(s@);
    }
    if idx == 0 {
        return 0;
    }
    let mut i = idx - 1;
    while i > 0 && !is_boundary(s, i)
        invariant
            i < idx,
            forall|j: int| i < j < idx ==> !#[trigger] boundary(s@, j),
        decreases i,
    {
        i = i - 1;
    }
    i
}

/// The first boundary after `idx` (the end when `idx` is at or past it).
pub fn next_char_boundary(s: &str, idx: usize) -> (r: usize)
    requires
        fits(s@),
    ensures
        r <= text_bytes(s@).len(),
        is_next_boundary(s@, idx as int, r as int),
{
    proof {
        lemma_boundary_basics(s@);
    }
    let n = byte_len(s);
    if idx >= n {
        return n;
    }
    let mut i = idx + 1;
    while i < n && !is_boundary(s, i)
        invariant
            idx < i <= n,
            n == text_bytes(s@).len(),
            forall|j: int| idx < j < i ==> !#[trigger] boundary(s@, j),
        decreases n - i,
    {
        i = i + 1;
    }
    i
}

/// `idx` clamped to the string and moved left onto the nearest boundary.
pub fn clamp_boundary(s: &str, idx: usize) -> (r: usize)
    requires
        fits(s@),
    ensures
        is_floor_boundary(s@, idx as int, r as int),
        r == floor_boundary(s@, idx as int),
{
    proof {
        lemma_boundary_basics(s@);
    }
    let n = byte_len(s);
    let mut i = if idx < n {
        idx
    } else {
        n
    };
    while i > 0 && !is_boundary(s, i)
        invariant
            i <= idx,
            i <= n,
            n == text_bytes(s@).len(),
            forall|j: int| i < j <= idx ==> !#[trigger] boundary(s@, j),
        decreases i,
    {
        i = i - 1;
    }
    proof {
        assert(is_floor_boundary(s@, idx as int, i as int));
        lemma_boundary_unique(s@, idx as int, i as int, floor_boundary(s@, idx as int));
    }
    i
}

/// Byte offset of character `k` of `s`, or the byte length when `k` is past the end.
pub fn char_index_to_byte(s: &str, k: usize) -> (r: usize)
    requires
        fits(s@),
    ensures
        r == char_byte(s@, k as int),
{
    proof {
        lemma_boundary_basics(s@);
        assert(s@.take(s@.len() as int) =~= s@);
    }
    let n = byte_len(s);
    let mut pos: usize = 0;
    let mut i: usize = 0;
    while i < k && pos < n
        invariant
            i <= s@.len(),
            i <= k,
            pos == byte_offset(s@, i as int),
            n == text_bytes(s@).len(),
            s@.take(s@.len() as int) == s@,
        decreases k - i,
    {
        proof {
            lemma_take_boundary(s@, i as int);
            if i == s@.len() {
                assert(false);
            }
        }
        let c = char_at(s, pos);
        proof {
            lemma_byte_offset_step(s@, i as int);
            lemma_take_boundary(s@, i as int + 1);
        }
        pos = pos + char_width_of(c);
        i = i + 1;
    }
    proof {
        assert(byte_offset(s@, s@.len() as int) == n);
        if i < s@.len() {
            lemma_byte_offset_strict(s@, i as int, s@.len() as int);
            assert(pos < n);
            assert(i == k);
        } else {
            assert(i == s@.len());
            if k < s@.len() {
                assert(i <= k);
            }
        }
    }
    pos
}

} // verus!
