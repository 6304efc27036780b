//! Text-edit kernel of single- and multi-line text inputs: caret and selection movement,
//! insertion, deletion, word navigation, IME composition and the displayed text.
//!
//! Every caret offset is a UTF-8 byte offset into `value`; the kernel keeps `cursor` and
//! `anchor` on character boundaries, and `max_length` counts characters (0 = unlimited).

use vstd::prelude::*;
use vstd::utf8::*;
use crate::node::{Composition, NodeId, NodeKind};
use crate::event::{ControlEvent, EventKind};
use crate::strs::{is_alphanumeric, alphanumeric, push_char};
use crate::text_cursor::{line_byte_ranges, line_range};
use crate::text::{
    boundary, byte_len, byte_offset, char_at, char_count, char_index_to_byte, char_width,
    char_width_of, chars_before, chars_between, clamp_boundary, concat, fits, is_floor_boundary,
    is_next_boundary, is_prev_boundary, floor_boundary, char_byte, lemma_neighbour_boundaries, lemma_boundary_index,
    lemma_boundary_unique, lemma_floor_exists,
    lemma_boundary_basics, lemma_byte_offset_step, lemma_byte_offset_strict, lemma_encode_append,
    lemma_prefix_boundary, lemma_split_chars, lemma_encode_single, lemma_sub_boundary, lemma_take_boundary,
    next_char_boundary, prev_char_boundary, slice_bytes, text_bytes,
};

verus! {

broadcast use {encode_utf8_valid_utf8, encode_utf8_decode_utf8};

/// Runtime state of a text input (TextField / TextArea / NumberField).
#[derive(Debug, Clone, PartialEq)]
pub struct EditState {
    pub value: String,
    /// Shown instead of the value while the value is empty.
    pub placeholder: String,
    /// Caret byte offset in `[0, value.len()]`.
    pub cursor: usize,
    /// Selection anchor; the selection is `[min(anchor, cursor), max(anchor, cursor))`.
    pub anchor: usize,
    /// IME pre-edit text, spliced into the displayed text.
    pub composition: Option<Composition>,
    /// Maximum number of characters; 0 = unlimited.
    pub max_length: usize,
    pub readonly: bool,
    /// Caret blink phase: shown or hidden.
    pub cursor_visible: bool,
    /// Time since the caret blink phase last changed, in milliseconds.
    pub cursor_timer_ms: u32,
    /// Whether the remembered column for vertical caret moves is still current.
    pub ideal_cursor_valid: bool,
}

/// Half period of the caret blink, in milliseconds.
pub const CURSOR_BLINK_PERIOD_MS: u32 = 700;

/// Caret and anchor sit on character boundaries of a value whose byte length fits `usize`.
pub open spec fn edit_wf(e: EditState) -> bool {
    &&& fits(e.value@)
    &&& boundary(e.value@, e.cursor as int)
    &&& boundary(e.value@, e.anchor as int)
}

/// Start of the selection.
pub open spec fn sel_start(e: EditState) -> int {
    if e.anchor <= e.cursor {
        e.anchor as int
    } else {
        e.cursor as int
    }
}

/// End of the selection.
pub open spec fn sel_end(e: EditState) -> int {
    if e.anchor <= e.cursor {
        e.cursor as int
    } else {
        e.anchor as int
    }
}

/// `bytes` with `[lo, hi)` replaced by `ins`.
pub open spec fn spliced(bytes: Seq<u8>, lo: int, hi: int, ins: Seq<u8>) -> Seq<u8> {
    bytes.subrange(0, lo) + ins + bytes.subrange(hi, bytes.len() as int)
}

/// Whether a character survives input sanitizing for `kind`: control characters
/// (below U+0020 and DEL) are dropped, except the newline of a TextArea.
pub open spec fn keeps_char(kind: NodeKind, c: char) -> bool {
    (kind == NodeKind::TextArea && c == '\n') || (c >= ' ' && c != '\u{7f}')
}

/// `s` with the characters that `kind` does not accept removed.
pub open spec fn sanitized(kind: NodeKind, s: Seq<char>) -> Seq<char>
    decreases s.len(),
{
    if s.len() == 0 {
        Seq::<char>::empty()
    } else {
        let prev = sanitized(kind, s.drop_last());
        if keeps_char(kind, s.last()) {
            prev.push(s.last())
        } else {
            prev
        }
    }
}

/// Sanitizing never makes the encoding longer.
pub proof fn lemma_sanitized_shorter(kind: NodeKind, s: Seq<char>)
    ensures
        text_bytes(sanitized(kind, s)).len() <= text_bytes(s).len(),
        sanitized(kind, s).len() <= s.len(),
    decreases s.len(),
{
    if s.len() > 0 {
        lemma_sanitized_shorter(kind, s.drop_last());
        assert(s =~= s.drop_last() + seq![s.last()]);
        lemma_encode_append(s.drop_last(), seq![s.last()]);
        lemma_encode_append(sanitized(kind, s.drop_last()), seq![s.last()]);
        assert(sanitized(kind, s.drop_last()).push(s.last()) =~= sanitized(kind, s.drop_last())
            + seq![s.last()]);
    }
}

/// Lemma: an extended prefix sanitizes to the previous result plus the new character (if kept).
proof fn lemma_sanitized_step(kind: NodeKind, s: Seq<char>, i: int)
    requires
        0 <= i < s.len(),
    ensures
        sanitized(kind, s.take(i + 1)) == (if keeps_char(kind, s[i]) {
            sanitized(kind, s.take(i)).push(s[i])
        } else {
            sanitized(kind, s.take(i))
        }),
{
    assert(s.take(i + 1).drop_last() =~= s.take(i));
}

/// Characters of `s` that `kind` accepts as input: control characters are removed, a
/// TextArea keeps its newlines.
pub fn sanitize_str(kind: NodeKind, s: &str) -> (r: String)
    ensures
        r@ == sanitized(kind, s@),
{
    let n = char_count(s);
    let mut out = String::new();
    let mut i: usize = 0;
    while i < n
        invariant
            n == s@.len(),
            i <= n,
            out@ == sanitized(kind, s@.take(i as int)),
        decreases n - i,
    {
        let c = s.get_char(i);
        proof {
            lemma_sanitized_step(kind, s@, i as int);
        }
        let keep = (kind == NodeKind::TextArea && c == '\n') || (c >= ' ' && c != '\u{7f}');
        if keep {
            push_char(&mut out, c);
        }
        i = i + 1;
    }
    proof {
        assert(s@.take(n as int) =~= s@);
    }
    out
}

/// A new string whose bytes are those of `v` with `[lo, hi)` replaced by those of `ins`.
fn splice(v: &str, lo: usize, hi: usize, ins: &str) -> (r: String)
    requires
        boundary(v@, lo as int),
        boundary(v@, hi as int),
        lo <= hi,
        fits(v@),
    ensures
        text_bytes(r@) == spliced(text_bytes(v@), lo as int, hi as int, text_bytes(ins@)),
{
    proof {
        lemma_boundary_basics(v@);
    }
    let n = byte_len(v);
    let pre = slice_bytes(v, 0, lo);
    let post = slice_bytes(v, hi, n);
    let head = concat(pre, ins);
    let out = concat(head.as_str(), post);
    proof {
        lemma_encode_append(pre@, ins@);
        lemma_encode_append(pre@ + ins@, post@);
    }
    out
}

impl EditState {
    /// Initial state: caret and anchor at the end of `value`, no composition, caret shown.
    pub fn from_init(value: String, placeholder: String, max_length: usize, readonly: bool) -> (r: EditState)
        requires
            fits(value@),
        ensures
            r.value@ == value@,
            r.placeholder@ == placeholder@,
            r.cursor == text_bytes(value@).len(),
            r.anchor == r.cursor,
            r.composition is None,
            r.max_length == max_length,
            r.readonly == readonly,
            r.cursor_visible,
            r.cursor_timer_ms == 0,
            !r.ideal_cursor_valid,
            edit_wf(r),
    {
        proof {
            lemma_boundary_basics(value@);
        }
        let cursor = byte_len(value.as_str());
        EditState {
            value,
            placeholder,
            cursor,
            anchor: cursor,
            composition: None,
            max_length,
            readonly,
            cursor_visible: true,
            cursor_timer_ms: 0,
            ideal_cursor_valid: false,
        }
    }

    /// The selection `(start, end)` with `start <= end`; equal ends mean a bare caret.
    pub fn selection_range(&self) -> (r: (usize, usize))
        ensures
            r.0 == sel_start(*self),
            r.1 == sel_end(*self),
    {
        if self.anchor <= self.cursor {
            (self.anchor, self.cursor)
        } else {
            (self.cursor, self.anchor)
        }
    }
}

/// `after` is `before` with the selected bytes cut out and the caret (and anchor) at the
/// selection's start; nothing else changes.
pub open spec fn selection_deleted(before: EditState, after: EditState) -> bool {
    &&& text_bytes(after.value@) == spliced(
        text_bytes(before.value@),
        sel_start(before),
        sel_end(before),
        Seq::<u8>::empty(),
    )
    &&& after.cursor == sel_start(before)
    &&& after.anchor == sel_start(before)
    &&& after == (EditState {
        value: after.value,
        cursor: after.cursor,
        anchor: after.anchor,
        ..before
    })
}

/// Delete the selection; the caret collapses to its start. A bare caret is a no-op (`false`).
pub fn delete_selection(e: &mut EditState) -> (r: bool)
    requires
        edit_wf(*old(e)),
    ensures
        r == (old(e).anchor != old(e).cursor),
        !r ==> *final(e) == *old(e),
        r ==> selection_deleted(*old(e), *final(e)),
        edit_wf(*final(e)),
{
    let (b, end) = e.selection_range();
    if b == end {
        return false;
    }
    let nv = splice(e.value.as_str(), b, end, "");
    proof {
        reveal_strlit("");
        let ob = text_bytes(old(e).value@);
        assert(text_bytes(""@) =~= Seq::<u8>::empty());
        lemma_boundary_basics(old(e).value@);
        let nb = text_bytes(nv@);
        assert(nb.subrange(0, b as int) =~= ob.subrange(0, b as int));
        lemma_sub_boundary(ob, 0, b as int);
        assert(ob.subrange(0, b as int) + ob.subrange(end as int, ob.len() as int) == nb);
        lemma_prefix_boundary(nv@.take(0), nv@);
        assert(text_bytes(nv@).len() <= ob.len());
        assert(boundary(nv@, b as int)) by {
            lemma_boundary_basics(nv@);
            lemma_sub_boundary(nb, 0, nb.len() as int);
            assert(nb.subrange(0, nb.len() as int) =~= nb);
            // b is the end of the valid prefix ob[0..b] inside nb
            valid_utf8_split(ob, b as int);
            valid_utf8_split(ob, end as int);
            assert(nb =~= ob.subrange(0, b as int) + ob.subrange(end as int, ob.len() as int));
            lemma_concat_boundary(ob.subrange(0, b as int), ob.subrange(end as int, ob.len() as int));
        }
    }
    e.value = nv;
    e.cursor = b;
    e.anchor = b;
    true
}

/// The end of a valid first part is a boundary of a concatenation of two valid parts.
proof fn lemma_concat_boundary(a: Seq<u8>, b: Seq<u8>)
    requires
        valid_utf8(a),
        valid_utf8(b),
    ensures
        is_char_boundary(a + b, a.len() as int),
{
    let ca = decode_utf8(a);
    let cb = decode_utf8(b);
    decode_utf8_encode_utf8(a);
    decode_utf8_encode_utf8(b);
    lemma_prefix_boundary(ca, cb);
    lemma_encode_append(ca, cb);
}


/// Splicing valid text into a valid byte sequence at boundaries keeps it valid and makes both
/// ends of the inserted part boundaries.
proof fn lemma_splice_boundaries(ob: Seq<u8>, lo: int, hi: int, ins: Seq<char>)
    requires
        valid_utf8(ob),
        is_char_boundary(ob, lo),
        is_char_boundary(ob, hi),
        lo <= hi,
    ensures
        ({
            let nb = spliced(ob, lo, hi, text_bytes(ins));
            &&& valid_utf8(nb)
            &&& is_char_boundary(nb, lo)
            &&& is_char_boundary(nb, lo + text_bytes(ins).len())
        }),
{
    let ib = text_bytes(ins);
    is_char_boundary_start_end_of_seq(ob);
    lemma_sub_boundary(ob, 0, lo);
    lemma_sub_boundary(ob, hi, ob.len() as int);
    let a = ob.subrange(0, lo);
    let p = ob.subrange(hi, ob.len() as int);
    valid_utf8_concat(a, ib);
    valid_utf8_concat(ib, p);
    valid_utf8_concat(a + ib, p);
    lemma_concat_boundary(a + ib, p);
    lemma_concat_boundary(a, ib + p);
    assert(a + ib + p =~= a + (ib + p));
    assert(spliced(ob, lo, hi, ib) =~= a + ib + p);
}

/// Characters inside the selection of `e`.
pub open spec fn selected_chars(e: EditState) -> Seq<char> {
    chars_between(e.value@, sel_start(e), sel_end(e))
}

/// Whether `insert_text` accepts `text`: the input is writable, sanitizing leaves something,
/// and the character count after replacing the selection stays within `max_length`.
pub open spec fn insert_accepted(e: EditState, kind: NodeKind, text: Seq<char>) -> bool {
    let t = sanitized(kind, text);
    &&& !e.readonly
    &&& t.len() > 0
    &&& (e.max_length == 0 || e.value@.len() - selected_chars(e).len() + t.len() <= e.max_length)
}

/// Lemma: the selected characters of a well-formed state are no more than all characters.
proof fn lemma_selected_chars_bound(e: EditState)
    requires
        edit_wf(e),
    ensures
        selected_chars(e).len() <= e.value@.len(),
{
    let s = e.value@;
    lemma_boundary_basics(s);
    let lo = sel_start(e);
    let hi = sel_end(e);
    lemma_split_chars(s, lo);
    lemma_split_chars(s, hi);
    let kl = chars_before(s, lo);
    let kh = chars_before(s, hi);
    let ob = text_bytes(s);
    lemma_sub_boundary(ob, lo, ob.len() as int);
    let rest = s.skip(kl);
    // the selection is the first part of the rest after its start
    assert(text_bytes(rest) =~= ob.subrange(lo, ob.len() as int));
    assert(is_char_boundary(text_bytes(rest), hi - lo));
    lemma_split_chars(rest, hi - lo);
    assert(text_bytes(rest).subrange(0, hi - lo) =~= ob.subrange(lo, hi));
}

/// The outcome of inserting `text` into `before`, giving `after` and result `r`: on
/// acceptance the selection is replaced by the sanitized text and the caret collapses after it.
pub open spec fn inserted(before: EditState, kind: NodeKind, text: Seq<char>, after: EditState, r: bool) -> bool {
    &&& r == insert_accepted(before, kind, text)
    &&& !r ==> after == before
    &&& r ==> {
        let t = text_bytes(sanitized(kind, text));
        &&& text_bytes(after.value@) == spliced(
            text_bytes(before.value@),
            sel_start(before),
            sel_end(before),
            t,
        )
        &&& after.cursor == sel_start(before) + t.len()
        &&& after.anchor == after.cursor
        &&& after.cursor_visible
        &&& after.cursor_timer_ms == 0
        &&& !after.ideal_cursor_valid
        &&& after.placeholder == before.placeholder
        &&& after.composition == before.composition
        &&& after.max_length == before.max_length
        &&& after.readonly == before.readonly
    }
    &&& edit_wf(after)
}

/// Insert `text` (sanitized for `kind`) at the caret, replacing the selection. Rejected
/// (`false`, nothing changes) when readonly, when nothing is left after sanitizing, or when the
/// result would exceed `max_length` characters; the check comes before any change, so a
/// rejected insertion keeps the selection. On success the caret lands after the inserted text.
pub fn insert_text(e: &mut EditState, kind: NodeKind, text: &str) -> (r: bool)
    requires
        edit_wf(*old(e)),
        text_bytes(old(e).value@).len() + text_bytes(text@).len() <= usize::MAX,
    ensures
        inserted(*old(e), kind, text@, *final(e), r),
        edit_wf(*final(e)),
{
    if e.readonly {
        return false;
    }
    let t = sanitize_str(kind, text);
    let tlen = char_count(t.as_str());
    if tlen == 0 {
        return false;
    }
    proof {
        lemma_sanitized_shorter(kind, text@);
        lemma_selected_chars_bound(*e);
    }
    if e.max_length > 0 {
        let (sb, se) = e.selection_range();
        let sel = slice_bytes(e.value.as_str(), sb, se);
        let sel_chars = char_count(sel);
        let cur = char_count(e.value.as_str());
        let rem = cur - sel_chars;
        if rem > e.max_length || tlen > e.max_length - rem {
            return false;
        }
    }
    let ghost before = *e;
    delete_selection(e);
    let cur = e.cursor;
    let nv = splice(e.value.as_str(), cur, cur, t.as_str());
    let tb = byte_len(t.as_str());
    proof {
        let ob = text_bytes(before.value@);
        let mb = text_bytes(e.value@);
        let b = sel_start(before);
        let en = sel_end(before);
        lemma_boundary_basics(before.value@);
        lemma_boundary_basics(e.value@);
        if before.anchor != before.cursor {
            assert(mb == spliced(ob, b, en, Seq::<u8>::empty()));
        } else {
            assert(mb =~= spliced(ob, b, en, Seq::<u8>::empty()));
        }
        assert(mb.subrange(0, b) =~= ob.subrange(0, b));
        assert(mb.subrange(b, mb.len() as int) =~= ob.subrange(en, ob.len() as int));
        assert(text_bytes(nv@) =~= spliced(ob, b, en, text_bytes(t@)));
        lemma_splice_boundaries(mb, b, b, t@);
        assert(spliced(mb, b, b, text_bytes(t@)) =~= text_bytes(nv@));
    }
    e.value = nv;
    e.cursor = cur + tb;
    e.anchor = e.cursor;
    e.ideal_cursor_valid = false;
    e.cursor_visible = true;
    e.cursor_timer_ms = 0;
    true
}


/// Character index of the caret.
pub open spec fn caret_index(e: EditState) -> int {
    chars_before(e.value@, e.cursor as int)
}

/// Delete one character: left of the caret (`backspace`) or right of it. A selection is
/// deleted instead when there is one. Readonly inputs and a caret at the matching end are
/// no-ops (`false`); apart from readonly, the remembered column is invalidated in every case.
pub fn delete_char(e: &mut EditState, kind: NodeKind, backspace: bool) -> (r: bool)
    requires
        edit_wf(*old(e)),
    ensures
        edit_wf(*final(e)),
        old(e).readonly ==> !r && *final(e) == *old(e),
        !old(e).readonly ==> {
            let e1 = EditState { ideal_cursor_valid: false, ..*old(e) };
            let ob = text_bytes(old(e).value@);
            let k = caret_index(*old(e));
            if old(e).anchor != old(e).cursor {
                &&& r
                &&& text_bytes(final(e).value@) == spliced(ob, sel_start(e1), sel_end(e1), Seq::<u8>::empty())
                &&& *final(e) == (EditState {
                    value: final(e).value,
                    cursor: sel_start(e1) as usize,
                    anchor: sel_start(e1) as usize,
                    ..e1
                })
            } else if backspace && old(e).cursor > 0 {
                let nc = byte_offset(old(e).value@, k - 1);
                &&& r
                &&& text_bytes(final(e).value@) == spliced(ob, nc, old(e).cursor as int, Seq::<u8>::empty())
                &&& *final(e) == (EditState {
                    value: final(e).value,
                    cursor: nc as usize,
                    anchor: nc as usize,
                    ..e1
                })
            } else if !backspace && old(e).cursor < ob.len() {
                let end = byte_offset(old(e).value@, k + 1);
                &&& r
                &&& text_bytes(final(e).value@) == spliced(ob, old(e).cursor as int, end, Seq::<u8>::empty())
                &&& *final(e) == (EditState { value: final(e).value, anchor: old(e).cursor, ..e1 })
            } else {
                !r && *final(e) == e1
            }
        },
{
    if e.readonly {
        return false;
    }
    e.ideal_cursor_valid = false;
    if e.anchor != e.cursor {
        return delete_selection(e);
    }
    let ghost s = e.value@;
    let ghost k = caret_index(*e);
    proof {
        lemma_boundary_basics(s);
        lemma_boundary_index(s, e.cursor as int);
        lemma_neighbour_boundaries(s, k);
        reveal_strlit("");
        assert(text_bytes(""@) =~= Seq::<u8>::empty());
        assert(s.take(s.len() as int) =~= s);
    }
    let n = byte_len(e.value.as_str());
    if backspace && e.cursor > 0 {
        let nc = prev_char_boundary(e.value.as_str(), e.cursor);
        proof {
            assert(k > 0);
            lemma_boundary_unique(s, e.cursor as int, nc as int, byte_offset(s, k - 1));
        }
        let nv = splice(e.value.as_str(), nc, e.cursor, "");
        proof {
            lemma_splice_boundaries(text_bytes(s), nc as int, e.cursor as int, ""@);
            lemma_boundary_basics(nv@);
        }
        e.value = nv;
        e.cursor = nc;
        e.anchor = nc;
        true
    } else if !backspace && e.cursor < n {
        let end = next_char_boundary(e.value.as_str(), e.cursor);
        proof {
            if k == s.len() {
                assert(false);
            }
            lemma_boundary_unique(s, e.cursor as int, end as int, byte_offset(s, k + 1));
        }
        let nv = splice(e.value.as_str(), e.cursor, end, "");
        proof {
            lemma_splice_boundaries(text_bytes(s), e.cursor as int, end as int, ""@);
            lemma_boundary_basics(nv@);
        }
        e.value = nv;
        e.anchor = e.cursor;
        true
    } else {
        false
    }
}

/// Move the caret one character right or left; `select` keeps the anchor (extends the
/// selection), otherwise the selection collapses onto the caret. Shows the caret.
pub fn move_cursor(e: &mut EditState, kind: NodeKind, right: bool, select: bool)
    requires
        fits(old(e).value@),
    ensures
        right ==> is_next_boundary(old(e).value@, old(e).cursor as int, final(e).cursor as int),
        !right ==> is_prev_boundary(old(e).value@, old(e).cursor as int, final(e).cursor as int),
        final(e).anchor == (if select {
            old(e).anchor
        } else {
            final(e).cursor
        }),
        *final(e) == (EditState {
            cursor: final(e).cursor,
            anchor: final(e).anchor,
            ideal_cursor_valid: false,
            cursor_visible: true,
            cursor_timer_ms: 0,
            ..*old(e)
        }),
{
    let nc = if right {
        next_char_boundary(e.value.as_str(), e.cursor)
    } else {
        prev_char_boundary(e.value.as_str(), e.cursor)
    };
    e.cursor = nc;
    if !select {
        e.anchor = nc;
    }
    e.ideal_cursor_valid = false;
    e.cursor_visible = true;
    e.cursor_timer_ms = 0;
}


/// Index reached from character `k` by skipping characters whose alphanumeric property is
/// `alnum`, moving right.
pub open spec fn skip_forward(s: Seq<char>, k: int, alnum: bool) -> int
    decreases s.len() - k,
{
    if 0 <= k < s.len() && alphanumeric(s[k]) == alnum {
        skip_forward(s, k + 1, alnum)
    } else {
        k
    }
}

/// Index reached from character `k` by skipping characters whose alphanumeric property is
/// `alnum`, moving left.
pub open spec fn skip_backward(s: Seq<char>, k: int, alnum: bool) -> int
    decreases k,
{
    if 0 < k <= s.len() && alphanumeric(s[k - 1]) == alnum {
        skip_backward(s, k - 1, alnum)
    } else {
        k
    }
}

/// Word end after character `k`: skip separators, then the word (a maximal run of
/// alphanumeric characters).
pub open spec fn word_end(s: Seq<char>, k: int) -> int {
    skip_forward(s, skip_forward(s, k, false), true)
}

/// Word start before character `k`: skip separators leftwards, then the word.
pub open spec fn word_start(s: Seq<char>, k: int) -> int {
    skip_backward(s, skip_backward(s, k, false), true)
}

proof fn lemma_skip_forward_range(s: Seq<char>, k: int, alnum: bool)
    requires
        0 <= k <= s.len(),
    ensures
        k <= skip_forward(s, k, alnum) <= s.len(),
    decreases s.len() - k,
{
    if 0 <= k < s.len() && alphanumeric(s[k]) == alnum {
        lemma_skip_forward_range(s, k + 1, alnum);
    }
}

proof fn lemma_skip_backward_range(s: Seq<char>, k: int, alnum: bool)
    requires
        0 <= k <= s.len(),
    ensures
        0 <= skip_backward(s, k, alnum) <= k,
    decreases k,
{
    if 0 < k <= s.len() && alphanumeric(s[k - 1]) == alnum {
        lemma_skip_backward_range(s, k - 1, alnum);
    }
}

/// Byte offset reached from boundary `pos` by skipping characters with the given
/// alphanumeric property to the right.
fn skip_forward_bytes(s: &str, pos: usize, alnum: bool) -> (r: usize)
    requires
        boundary(s@, pos as int),
        fits(s@),
    ensures
        0 <= chars_before(s@, pos as int) <= s@.len(),
        r == byte_offset(s@, skip_forward(s@, chars_before(s@, pos as int), alnum)),
{
    proof {
        lemma_boundary_basics(s@);
        lemma_boundary_index(s@, pos as int);
        assert(s@.take(s@.len() as int) =~= s@);
    }
    let n = byte_len(s);
    let ghost k0 = chars_before(s@, pos as int);
    let ghost mut k = k0;
    let mut p = pos;
    let mut done = false;
    while !done && p < n
        invariant
            n == text_bytes(s@).len(),
            0 <= k <= s@.len(),
            p == byte_offset(s@, k),
            skip_forward(s@, k, alnum) == skip_forward(s@, k0, alnum),
            done ==> k < s@.len() && alphanumeric(s@[k]) != alnum,
            s@.take(s@.len() as int) == s@,
        decreases n - p + (if done {
            0int
        } else {
            1int
        }),
    {
        proof {
            lemma_take_boundary(s@, k);
            if k == s@.len() {
                assert(false);
            }
        }
        let ch = char_at(s, p);
        if is_alphanumeric(ch) != alnum {
            done = true;
        } else {
            proof {
                lemma_byte_offset_step(s@, k);
                lemma_byte_offset_strict(s@, k, k + 1);
                if k + 1 < s@.len() {
                    lemma_byte_offset_strict(s@, k + 1, s@.len() as int);
                }
            }
            p = p + char_width_of(ch);
            proof {
                k = k + 1;
            }
        }
    }
    proof {
        if !done {
            if k < s@.len() {
                lemma_byte_offset_strict(s@, k, s@.len() as int);
            }
        }
    }
    p
}

/// Byte offset reached from boundary `pos` by skipping characters with the given
/// alphanumeric property to the left.
fn skip_backward_bytes(s: &str, pos: usize, alnum: bool) -> (r: usize)
    requires
        boundary(s@, pos as int),
        fits(s@),
    ensures
        0 <= chars_before(s@, pos as int) <= s@.len(),
        r == byte_offset(s@, skip_backward(s@, chars_before(s@, pos as int), alnum)),
{
    proof {
        lemma_boundary_basics(s@);
        lemma_boundary_index(s@, pos as int);
    }
    let ghost k0 = chars_before(s@, pos as int);
    let ghost mut k = k0;
    let mut p = pos;
    let mut done = false;
    while !done && p > 0
        invariant
            0 <= k <= s@.len(),
            p == byte_offset(s@, k),
            skip_backward(s@, k, alnum) == skip_backward(s@, k0, alnum),
            done ==> k > 0 && alphanumeric(s@[k - 1]) != alnum,
            fits(s@),
        decreases p + (if done {
            0int
        } else {
            1int
        }),
    {
        proof {
            lemma_neighbour_boundaries(s@, k);
            if k == 0 {
                assert(s@.take(0) =~= Seq::<char>::empty());
                assert(false);
            }
        }
        let start = prev_char_boundary(s, p);
        proof {
            lemma_boundary_unique(s@, p as int, start as int, byte_offset(s@, k - 1));
            lemma_neighbour_boundaries(s@, k - 1);
            lemma_take_boundary(s@, k - 1);
            lemma_byte_offset_strict(s@, k - 1, k);
            if k < s@.len() {
                lemma_byte_offset_strict(s@, k, s@.len() as int);
            }
            assert(s@.take(s@.len() as int) =~= s@);
        }
        let ch = char_at(s, start);
        if is_alphanumeric(ch) != alnum {
            done = true;
        } else {
            p = start;
            proof {
                k = k - 1;
            }
        }
    }
    proof {
        if !done && k > 0 {
            lemma_byte_offset_strict(s@, 0, k);
            assert(s@.take(0) =~= Seq::<char>::empty());
        }
    }
    p
}

/// Forward word end from boundary `pos`: past the separators, then past the word.
fn next_word_end(s: &str, pos: usize) -> (r: usize)
    requires
        boundary(s@, pos as int),
        fits(s@),
    ensures
        r == byte_offset(s@, word_end(s@, chars_before(s@, pos as int))),
{
    let p1 = skip_forward_bytes(s, pos, false);
    proof {
        let k = chars_before(s@, pos as int);
        lemma_skip_forward_range(s@, k, false);
        lemma_take_boundary(s@, skip_forward(s@, k, false));
    }
    skip_forward_bytes(s, p1, true)
}

/// Backward word start from boundary `pos`: before the separators, then before the word.
fn prev_word_start(s: &str, pos: usize) -> (r: usize)
    requires
        boundary(s@, pos as int),
        fits(s@),
    ensures
        r == byte_offset(s@, word_start(s@, chars_before(s@, pos as int))),
{
    let p1 = skip_backward_bytes(s, pos, false);
    proof {
        let k = chars_before(s@, pos as int);
        lemma_skip_backward_range(s@, k, false);
        lemma_take_boundary(s@, skip_backward(s@, k, false));
    }
    skip_backward_bytes(s, p1, true)
}

/// Move the caret by a word (browser convention: right lands after the next word's end, left
/// on the previous word's start; words are runs of alphanumeric characters, so a run of CJK
/// characters is one word). `select` keeps the anchor.
pub fn move_word(e: &mut EditState, right: bool, select: bool)
    requires
        edit_wf(*old(e)),
    ensures
        final(e).cursor == (if right {
            byte_offset(old(e).value@, word_end(old(e).value@, caret_index(*old(e))))
        } else {
            byte_offset(old(e).value@, word_start(old(e).value@, caret_index(*old(e))))
        }),
        final(e).anchor == (if select {
            old(e).anchor
        } else {
            final(e).cursor
        }),
        *final(e) == (EditState {
            cursor: final(e).cursor,
            anchor: final(e).anchor,
            ideal_cursor_valid: false,
            cursor_visible: true,
            cursor_timer_ms: 0,
            ..*old(e)
        }),
        edit_wf(*final(e)),
{
    let nc = if right {
        next_word_end(e.value.as_str(), e.cursor)
    } else {
        prev_word_start(e.value.as_str(), e.cursor)
    };
    proof {
        let s = e.value@;
        let k = caret_index(*e);
        lemma_boundary_index(s, e.cursor as int);
        lemma_skip_forward_range(s, k, false);
        lemma_skip_forward_range(s, skip_forward(s, k, false), true);
        lemma_skip_backward_range(s, k, false);
        lemma_skip_backward_range(s, skip_backward(s, k, false), true);
        lemma_take_boundary(s, word_end(s, k));
        lemma_take_boundary(s, word_start(s, k));
    }
    e.cursor = nc;
    if !select {
        e.anchor = nc;
    }
    e.ideal_cursor_valid = false;
    e.cursor_visible = true;
    e.cursor_timer_ms = 0;
}

/// Delete from the caret to the previous word start (`backspace`) or the next word end.
/// A selection is deleted instead when there is one; readonly inputs and a caret with no word
/// in that direction are no-ops (`false`).
pub fn delete_word(e: &mut EditState, backspace: bool) -> (r: bool)
    requires
        edit_wf(*old(e)),
    ensures
        edit_wf(*final(e)),
        old(e).readonly ==> !r && *final(e) == *old(e),
        !old(e).readonly && old(e).anchor != old(e).cursor ==> {
            &&& r
            &&& text_bytes(final(e).value@) == spliced(
                text_bytes(old(e).value@),
                sel_start(*old(e)),
                sel_end(*old(e)),
                Seq::<u8>::empty(),
            )
            &&& *final(e) == (EditState {
                value: final(e).value,
                cursor: sel_start(*old(e)) as usize,
                anchor: sel_start(*old(e)) as usize,
                ..*old(e)
            })
        },
        !old(e).readonly && old(e).anchor == old(e).cursor ==> {
            let s = old(e).value@;
            let k = caret_index(*old(e));
            let bound = if backspace {
                byte_offset(s, word_start(s, k))
            } else {
                byte_offset(s, word_end(s, k))
            };
            let lo = if backspace {
                bound
            } else {
                old(e).cursor as int
            };
            let hi = if backspace {
                old(e).cursor as int
            } else {
                bound
            };
            &&& r == (bound != old(e).cursor)
            &&& !r ==> *final(e) == *old(e)
            &&& r ==> text_bytes(final(e).value@) == spliced(text_bytes(s), lo, hi, Seq::<u8>::empty())
                && *final(e) == (EditState {
                value: final(e).value,
                cursor: lo as usize,
                anchor: lo as usize,
                ideal_cursor_valid: false,
                ..*old(e)
            })
        },
{
    if e.readonly {
        return false;
    }
    if e.anchor != e.cursor {
        return delete_selection(e);
    }
    let ghost s = e.value@;
    let ghost k = caret_index(*e);
    let bound = if backspace {
        prev_word_start(e.value.as_str(), e.cursor)
    } else {
        next_word_end(e.value.as_str(), e.cursor)
    };
    if bound == e.cursor {
        return false;
    }
    proof {
        lemma_boundary_index(s, e.cursor as int);
        lemma_skip_forward_range(s, k, false);
        lemma_skip_forward_range(s, skip_forward(s, k, false), true);
        lemma_skip_backward_range(s, k, false);
        lemma_skip_backward_range(s, skip_backward(s, k, false), true);
        lemma_take_boundary(s, word_end(s, k));
        lemma_take_boundary(s, word_start(s, k));
        if backspace {
            if word_start(s, k) < k {
                lemma_byte_offset_strict(s, word_start(s, k), k);
            }
        } else {
            if k < word_end(s, k) {
                lemma_byte_offset_strict(s, k, word_end(s, k));
            }
        }
        reveal_strlit("");
        assert(text_bytes(""@) =~= Seq::<u8>::empty());
        lemma_boundary_basics(s);
    }
    if backspace {
        let nv = splice(e.value.as_str(), bound, e.cursor, "");
        proof {
            lemma_splice_boundaries(text_bytes(s), bound as int, e.cursor as int, ""@);
            lemma_boundary_basics(nv@);
        }
        e.value = nv;
        e.cursor = bound;
    } else {
        let nv = splice(e.value.as_str(), e.cursor, bound, "");
        proof {
            lemma_splice_boundaries(text_bytes(s), e.cursor as int, bound as int, ""@);
            lemma_boundary_basics(nv@);
        }
        e.value = nv;
    }
    e.anchor = e.cursor;
    e.ideal_cursor_valid = false;
    true
}


/// Rewrite the value through input sanitizing for `kind` and move caret and anchor left onto
/// the nearest boundary of the new value.
pub fn sanitize_value(e: &mut EditState, kind: NodeKind)
    requires
        fits(old(e).value@),
    ensures
        final(e).value@ == sanitized(kind, old(e).value@),
        final(e).cursor == floor_boundary(final(e).value@, old(e).cursor as int),
        final(e).anchor == floor_boundary(final(e).value@, old(e).anchor as int),
        *final(e) == (EditState {
            value: final(e).value,
            cursor: final(e).cursor,
            anchor: final(e).anchor,
            ..*old(e)
        }),
        edit_wf(*final(e)),
{
    let v = sanitize_str(kind, e.value.as_str());
    proof {
        lemma_sanitized_shorter(kind, e.value@);
    }
    let c = clamp_boundary(v.as_str(), e.cursor);
    let a = clamp_boundary(v.as_str(), e.anchor);
    e.value = v;
    e.cursor = c;
    e.anchor = a;
}

/// Set the IME composition from the platform's pre-edit string. An empty string cancels the
/// composition; otherwise `pos` is clamped onto a boundary of the value and the caret is shown.
pub fn set_composition(e: &mut EditState, text: &str, pos: usize)
    requires
        fits(old(e).value@),
    ensures
        text@.len() == 0 ==> *final(e) == (EditState { composition: None, ..*old(e) }),
        text@.len() > 0 ==> {
            &&& final(e).composition matches Some(c) && c.text@ == text@ && c.pos == floor_boundary(
                old(e).value@,
                pos as int,
            )
            &&& *final(e) == (EditState {
                composition: final(e).composition,
                ideal_cursor_valid: false,
                cursor_visible: true,
                cursor_timer_ms: 0,
                ..*old(e)
            })
        },
{
    if text.is_empty() {
        e.composition = None;
        return;
    }
    let p = clamp_boundary(e.value.as_str(), pos);
    e.composition = Some(Composition { text: String::from_str(text), pos: p });
    e.ideal_cursor_valid = false;
    e.cursor_visible = true;
    e.cursor_timer_ms = 0;
}

/// Commit the composition into the value at its position: the caret moves there (collapsing
/// the selection) and the text goes through `insert_text`. `false` without a composition.
pub fn commit_composition(e: &mut EditState, kind: NodeKind) -> (r: bool)
    requires
        edit_wf(*old(e)),
        old(e).composition matches Some(c) ==> boundary(old(e).value@, c.pos as int)
            && text_bytes(old(e).value@).len() + text_bytes(c.text@).len() <= usize::MAX,
    ensures
        old(e).composition is None ==> !r && *final(e) == *old(e),
        old(e).composition matches Some(c) ==> inserted(
            EditState { cursor: c.pos, anchor: c.pos, composition: None, ..*old(e) },
            kind,
            c.text@,
            *final(e),
            r,
        ),
{
    let comp = e.composition.take();
    match comp {
        None => false,
        Some(c) => {
            e.cursor = c.pos;
            e.anchor = c.pos;
            insert_text(e, kind, c.text.as_str())
        },
    }
}

/// Byte offset in the value where the composition is spliced into the displayed text.
pub open spec fn comp_splice(e: EditState) -> int {
    floor_boundary(e.value@, e.composition->0.pos as int)
}

/// Character index in the value where the composition is spliced.
pub open spec fn comp_char(e: EditState) -> int {
    chars_before(e.value@, comp_splice(e))
}

/// Displayed characters: the value with the composition text spliced in.
pub open spec fn display_chars(e: EditState) -> Seq<char> {
    match e.composition {
        None => e.value@,
        Some(c) => e.value@.take(comp_char(e)) + c.text@ + e.value@.skip(comp_char(e)),
    }
}

/// Byte range of the composition inside the displayed text (none when absent or empty).
pub open spec fn display_range(e: EditState) -> Option<(int, int)> {
    match e.composition {
        None => None,
        Some(c) => if c.text@.len() == 0 {
            None
        } else {
            Some((comp_splice(e), comp_splice(e) + text_bytes(c.text@).len()))
        },
    }
}

/// Value and composition bytes together fit `usize`.
pub open spec fn display_fits(e: EditState) -> bool {
    &&& fits(e.value@)
    &&& e.composition matches Some(c) ==> text_bytes(e.value@).len() + text_bytes(c.text@).len()
        <= usize::MAX
}

/// Display text for measuring and rendering, with the composition's byte range in it.
pub fn display_value(e: &EditState) -> (r: (String, Option<(usize, usize)>))
    requires
        display_fits(*e),
    ensures
        r.0@ == display_chars(*e),
        match display_range(*e) {
            None => r.1 is None,
            Some(range) => r.1 matches Some(x) && x.0 == range.0 && x.1 == range.1,
        },
        fits(r.0@),
{
    match &e.composition {
        None => {
            let v = String::from_str(e.value.as_str());
            (v, None)
        },
        Some(c) => {
            let v = e.value.as_str();
            proof {
                lemma_boundary_basics(v@);
            }
            let n = byte_len(v);
            let aligned = clamp_boundary(v, c.pos);
            let pre = slice_bytes(v, 0, aligned);
            let post = slice_bytes(v, aligned, n);
            let head = concat(pre, c.text.as_str());
            let display = concat(head.as_str(), post);
            proof {
                lemma_split_chars(v@, aligned as int);
                lemma_encode_append(pre@, c.text@);
                lemma_encode_append(pre@ + c.text@, post@);
                assert(display@ =~= display_chars(*e));
            }
            if c.text.as_str().is_empty() {
                (display, None)
            } else {
                let tl = byte_len(c.text.as_str());
                (display, Some((aligned, aligned + tl)))
            }
        },
    }
}

/// Mask characters of `-webkit-text-security`.
#[derive(Debug, Clone, Copy, PartialEq, Eq, Structural)]
pub enum TextSecurity {
    Disc,
    Circle,
    Square,
}

/// The mask character of a text-security style: disc, circle or square.
pub fn mask_char(sec: TextSecurity) -> (r: char)
    ensures
        sec == TextSecurity::Disc ==> r == '\u{25CF}',
        sec == TextSecurity::Circle ==> r == '\u{25CB}',
        sec == TextSecurity::Square ==> r == '\u{25A0}',
{
    match sec {
        TextSecurity::Disc => '\u{25CF}',
        TextSecurity::Circle => '\u{25CB}',
        TextSecurity::Square => '\u{25A0}',
    }
}

/// `s` with every character but newlines replaced by `m`.
pub open spec fn masked(s: Seq<char>, m: char) -> Seq<char> {
    Seq::new(s.len(), |i: int| if s[i] == '\n' { '\n' } else { m })
}

/// Masked copy of `s`.
fn mask_str(s: &str, m: char) -> (r: String)
    ensures
        r@ == masked(s@, m),
{
    let n = char_count(s);
    let mut out = String::new();
    let mut i: usize = 0;
    while i < n
        invariant
            n == s@.len(),
            i <= n,
            out@ =~= masked(s@.take(i as int), m),
        decreases n - i,
    {
        let c = s.get_char(i);
        if c == '\n' {
            push_char(&mut out, c);
        } else {
            push_char(&mut out, m);
        }
        i = i + 1;
    }
    proof {
        assert(s@.take(n as int) =~= s@);
    }
    out
}

/// Masked variant of `display_value`: each displayed character but newlines becomes `mask`
/// (the character count is kept, byte widths change); the composition range is carried over
/// by character position into the masked text. Without a mask this is `display_value`.
pub fn display_value_masked(e: &EditState, mask: Option<char>) -> (r: (String, Option<(usize, usize)>))
    requires
        display_fits(*e),
        mask matches Some(m) ==> fits(masked(display_chars(*e), m)),
    ensures
        mask is None ==> r.0@ == display_chars(*e) && match display_range(*e) {
            None => r.1 is None,
            Some(range) => (r.1 matches Some(x) && x.0 == range.0 && x.1 == range.1),
        },
        mask matches Some(m) ==> {
            &&& r.0@ == masked(display_chars(*e), m)
            &&& display_range(*e) is None ==> r.1 is None
            &&& display_range(*e) is Some ==> (r.1 matches Some(x) && x.0 == byte_offset(
                r.0@,
                comp_char(*e),
            ) && x.1 == byte_offset(r.0@, comp_char(*e) + e.composition->0.text@.len()))
        },
{
    let (display, comp) = display_value(e);
    match mask {
        None => (display, comp),
        Some(m) => {
            let out = mask_str(display.as_str(), m);
            match comp {
                None => (out, None),
                Some((s, end)) => {
                    let ghost v = e.value@;
                    let ghost p = comp_char(*e);
                    let ghost t = e.composition->0.text@;
                    proof {
                        lemma_boundary_basics(v);
                        lemma_floor_exists(v, e.composition->0.pos as int);
                        lemma_boundary_index(v, comp_splice(*e));
                        lemma_take_boundary(v, p);
                        lemma_split_chars(v, comp_splice(*e));
                        let d = display@;
                        assert(d.take(p) =~= v.take(p));
                        assert(d.take(p + t.len()) =~= v.take(p) + t);
                        lemma_encode_append(v.take(p), t);
                        lemma_take_boundary(d, p);
                        lemma_take_boundary(d, p + t.len());
                        lemma_boundary_basics(d);
                    }
                    let d = display.as_str();
                    let cs = char_count(slice_bytes(d, 0, s));
                    let ce = char_count(slice_bytes(d, 0, end));
                    let a = char_index_to_byte(out.as_str(), cs);
                    let b = char_index_to_byte(out.as_str(), ce);
                    proof {
                        assert(out@.take(out@.len() as int) =~= out@);
                    }
                    (out, Some((a, b)))
                },
            }
        },
    }
}

/// Map a value byte offset into a masked display text by character position; an offset
/// inside a character or past the end is first moved left onto a boundary.
pub fn value_to_display_byte(value: &str, display: &str, off: usize) -> (r: usize)
    requires
        fits(value@),
        fits(display@),
    ensures
        r == char_byte(display@, chars_before(value@, floor_boundary(value@, off as int))),
{
    let c = clamp_boundary(value, off);
    let n = char_count(slice_bytes(value, 0, c));
    proof {
        lemma_boundary_basics(value@);
    }
    char_index_to_byte(display, n)
}

/// Map a display byte offset back into the value by character position (inverse of
/// `value_to_display_byte` on boundaries).
pub fn display_to_value_byte(display: &str, value: &str, off: usize) -> (r: usize)
    requires
        fits(value@),
        fits(display@),
    ensures
        r == char_byte(value@, chars_before(display@, floor_boundary(display@, off as int))),
{
    let c = clamp_boundary(display, off);
    let n = char_count(slice_bytes(display, 0, c));
    proof {
        lemma_boundary_basics(display@);
    }
    char_index_to_byte(value, n)
}

/// The selected text (empty for a bare caret).
pub fn selected_text(e: &EditState) -> (r: String)
    requires
        edit_wf(*e),
    ensures
        r@ == selected_chars(*e),
{
    let (b, end) = e.selection_range();
    String::from_str(slice_bytes(e.value.as_str(), b, end))
}

/// Record a value-changed event for `node` (text value changed; listeners read the value).
pub fn emit_value_changed(out: &mut Vec<ControlEvent>, node: NodeId)
    ensures
        final(out)@ == old(out)@.push(ControlEvent { node, kind: EventKind::ValueChanged }),
{
    out.push(ControlEvent { node, kind: EventKind::ValueChanged });
}

/// Enter key. A TextArea inserts a newline (and reports a value change when it was inserted);
/// single-line inputs keep their value and report a submit, readonly or not.
pub fn line_break(e: &mut EditState, kind: NodeKind, out: &mut Vec<ControlEvent>, node: NodeId)
    requires
        edit_wf(*old(e)),
        text_bytes(old(e).value@).len() + 1 <= usize::MAX,
    ensures
        kind == NodeKind::TextArea ==> exists|r: bool|
            #![trigger inserted(*old(e), kind, seq!['\n'], *final(e), r)]
            inserted(*old(e), kind, seq!['\n'], *final(e), r) && final(out)@ == (if r {
                old(out)@.push(ControlEvent { node, kind: EventKind::ValueChanged })
            } else {
                old(out)@
            }),
        kind != NodeKind::TextArea ==> *final(e) == *old(e) && final(out)@ == old(out)@.push(
            ControlEvent { node, kind: EventKind::Submitted },
        ),
{
    if kind == NodeKind::TextArea {
        proof {
            reveal_strlit("\n");
            lemma_encode_single('\n');
            assert("\n"@ =~= seq!['\n']);
        }
        let r = insert_text(e, kind, "\n");
        if r {
            emit_value_changed(out, node);
        }
    } else {
        out.push(ControlEvent { node, kind: EventKind::Submitted });
    }
}

/// Advance the caret blink clock by `dt_ms`. A focused input flips the caret every
/// `CURSOR_BLINK_PERIOD_MS` (the clock restarting at each flip); an unfocused one hides it.
pub fn advance_blink(e: &mut EditState, focused: bool, dt_ms: u32)
    ensures
        !focused ==> *final(e) == (EditState { cursor_visible: false, ..*old(e) }),
        focused && old(e).cursor_timer_ms + dt_ms >= CURSOR_BLINK_PERIOD_MS ==> *final(e) == (
        EditState { cursor_timer_ms: 0, cursor_visible: !old(e).cursor_visible, ..*old(e) }),
        focused && old(e).cursor_timer_ms + dt_ms < CURSOR_BLINK_PERIOD_MS ==> *final(e) == (
        EditState { cursor_timer_ms: (old(e).cursor_timer_ms + dt_ms) as u32, ..*old(e) }),
{
    if focused {
        if dt_ms >= CURSOR_BLINK_PERIOD_MS || e.cursor_timer_ms >= CURSOR_BLINK_PERIOD_MS - dt_ms {
            e.cursor_timer_ms = 0;
            e.cursor_visible = !e.cursor_visible;
        } else {
            e.cursor_timer_ms = e.cursor_timer_ms + dt_ms;
        }
    } else {
        e.cursor_visible = false;
    }
}

/// Mapping a boundary of the value into a display text with as many characters (the value
/// itself, or its masked form) and mapping the result back gives the same boundary.
pub proof fn law_display_byte_roundtrip(value: Seq<char>, display: Seq<char>, b: int)
    requires
        value.len() == display.len(),
        boundary(value, b),
    ensures
        char_byte(
            value,
            chars_before(
                display,
                floor_boundary(display, char_byte(display, chars_before(value, floor_boundary(value, b)))),
            ),
        ) == b,
{
    lemma_boundary_basics(value);
    lemma_boundary_basics(display);
    lemma_floor_exists(value, b);
    lemma_boundary_unique(value, b, b, floor_boundary(value, b));
    assert(is_floor_boundary(value, b, b));
    let k = chars_before(value, b);
    lemma_boundary_index(value, b);
    lemma_take_boundary(display, k);
    assert(value.take(value.len() as int) =~= value);
    assert(display.take(display.len() as int) =~= display);
    let d = char_byte(display, k);
    assert(d == byte_offset(display, k));
    lemma_floor_exists(display, d);
    assert(is_floor_boundary(display, d, d));
    lemma_boundary_unique(display, d, d, floor_boundary(display, d));
    assert(char_byte(value, k) == byte_offset(value, k));
}

/// The selected text of a state with a non-empty selection, as characters and as bytes, and
/// what is left around it.
proof fn lemma_selection_parts(e0: EditState) -> (w: Seq<char>)
    requires
        edit_wf(e0),
        e0.anchor != e0.cursor,
    ensures
        selected_chars(e0).len() > 0,
        text_bytes(selected_chars(e0)) == text_bytes(e0.value@).subrange(sel_start(e0), sel_end(e0)),
        text_bytes(w) == text_bytes(e0.value@).subrange(0, sel_start(e0)) + text_bytes(e0.value@).subrange(
            sel_end(e0),
            text_bytes(e0.value@).len() as int,
        ),
        w.len() + selected_chars(e0).len() == e0.value@.len(),
{
    let v = e0.value@;
    let ob = text_bytes(v);
    let lo = sel_start(e0);
    let hi = sel_end(e0);
    lemma_boundary_basics(v);
    lemma_split_chars(v, lo);
    lemma_split_chars(v, hi);
    let kl = chars_before(v, lo);
    let kh = chars_before(v, hi);
    assert(kl < kh) by {
        if kh <= kl {
            if kh < kl {
                lemma_byte_offset_strict(v, kh, kl);
            }
        }
    }
    let sub = v.subrange(kl, kh);
    assert(v.take(kh) =~= v.take(kl) + sub);
    lemma_encode_append(v.take(kl), sub);
    let big = text_bytes(v.take(kh));
    let pre = text_bytes(v.take(kl));
    assert(big == pre + text_bytes(sub));
    assert(text_bytes(sub) =~= big.subrange(lo, big.len() as int));
    assert(text_bytes(sub) =~= ob.subrange(lo, hi));
    assert(decode_utf8(text_bytes(sub)) == sub);
    assert(selected_chars(e0) == sub);
    let w = v.take(kl) + v.skip(kh);
    lemma_encode_append(v.take(kl), v.skip(kh));
    w
}

/// Cutting a selection and pasting the cut text back at the caret restores the value, with
/// the caret after the pasted text; for a writable input whose value respects its length
/// limit and whose selected text survives sanitizing unchanged.
pub proof fn law_cut_then_paste(
    e0: EditState,
    e1: EditState,
    e2: EditState,
    kind: NodeKind,
    r: bool,
)
    requires
        edit_wf(e0),
        e0.anchor != e0.cursor,
        !e0.readonly,
        e0.max_length == 0 || e0.value@.len() <= e0.max_length,
        sanitized(kind, selected_chars(e0)) == selected_chars(e0),
        selection_deleted(e0, e1),
        inserted(e1, kind, selected_chars(e0), e2, r),
    ensures
        r,
        e2.value@ == e0.value@,
        e2.cursor == sel_end(e0),
        e2.anchor == sel_end(e0),
{
    let v = e0.value@;
    let ob = text_bytes(v);
    let lo = sel_start(e0);
    let hi = sel_end(e0);
    let sub = selected_chars(e0);
    let w = lemma_selection_parts(e0);
    assert(text_bytes(e1.value@) =~= text_bytes(w));
    assert(decode_utf8(text_bytes(e1.value@)) == e1.value@);
    assert(decode_utf8(text_bytes(w)) == w);
    assert(e1.value@ == w);
    assert(sel_start(e1) == lo && sel_end(e1) == lo);
    assert(selected_chars(e1) =~= Seq::<char>::empty()) by {
        assert(text_bytes(e1.value@).subrange(lo, lo) =~= Seq::<u8>::empty());
        assert(encode_utf8(Seq::<char>::empty()) =~= Seq::<u8>::empty());
    }
    assert(insert_accepted(e1, kind, sub));
    let nb = spliced(text_bytes(e1.value@), lo, lo, text_bytes(sub));
    lemma_boundary_basics(v);
    assert(nb =~= ob);
    assert(decode_utf8(text_bytes(e2.value@)) == e2.value@);
    assert(decode_utf8(ob) == v);
}

/// `s` with every character, newlines included, replaced by `m`.
pub open spec fn masked_all(s: Seq<char>, m: char) -> Seq<char> {
    Seq::new(s.len(), |i: int| m)
}

/// Display text of a value: one mask character for every character of the value (newlines
/// too, so only the length shows) when a mask is given, else the value itself.
pub fn transform_display_value(value: &str, mask: Option<char>) -> (r: String)
    ensures
        r@ == match mask {
            Some(m) => masked_all(value@, m),
            None => value@,
        },
{
    match mask {
        Some(m) => {
            let n = char_count(value);
            let mut out = String::new();
            let mut i: usize = 0;
            while i < n
                invariant
                    n == value@.len(),
                    i <= n,
                    out@ =~= masked_all(value@.take(i as int), m),
                decreases n - i,
            {
                push_char(&mut out, m);
                i = i + 1;
            }
            out
        },
        None => String::from_str(value),
    }
}

/// What line-wise caret navigation of a multi-line input needs of its laid-out text: the
/// number of glyphs on each visual line and the displayed (masked) text they were laid out
/// from.
pub struct TextNavCtx {
    pub line_glyphs: Vec<usize>,
    pub display: String,
}

/// Byte range of visual line `i` (a text laid out on no line has the one empty line `(0, 0)`).
pub open spec fn nav_line(line_glyphs: Seq<usize>, display: Seq<char>, i: int) -> (int, int) {
    if line_glyphs.len() == 0 {
        (0, 0)
    } else {
        line_range(line_glyphs, display, i)
    }
}

/// Number of visual lines (at least one).
pub open spec fn nav_line_count(line_glyphs: Seq<usize>) -> int {
    if line_glyphs.len() == 0 {
        1
    } else {
        line_glyphs.len() as int
    }
}

/// The visual line holding display offset `off`, searching from line `i`: the first line
/// whose range ends after `off`, else the last line.
pub open spec fn line_of(line_glyphs: Seq<usize>, display: Seq<char>, off: int, i: int) -> int
    decreases nav_line_count(line_glyphs) - i,
{
    if i >= nav_line_count(line_glyphs) - 1 || off < nav_line(line_glyphs, display, i).1 {
        i
    } else {
        line_of(line_glyphs, display, off, i + 1)
    }
}

/// Display offset that Home (`home`) or End moves the caret to on the line of display
/// offset `off`: the line's start, or its end, stepping back over a final line feed.
pub open spec fn home_end_target(line_glyphs: Seq<usize>, display: Seq<char>, off: int, home: bool) -> int {
    let li = line_of(line_glyphs, display, off, 0);
    let (start, end) = nav_line(line_glyphs, display, li);
    if home {
        start
    } else if end > start && end - 1 < text_bytes(display).len() && text_bytes(display)[end - 1] == 10 {
        end - 1
    } else {
        end
    }
}

/// Byte of the display text `d` where the caret of `e` shows.
pub open spec fn caret_display_byte(e: EditState, d: Seq<char>) -> int {
    char_byte(d, chars_before(e.value@, floor_boundary(e.value@, e.cursor as int)))
}

/// The value offset that byte `hit` of the display text `d` maps back to.
pub open spec fn display_hit_offset(v: Seq<char>, d: Seq<char>, hit: int) -> int {
    floor_boundary(v, char_byte(v, chars_before(d, floor_boundary(d, hit))))
}

/// The byte ranges of the visual lines of `ctx` and the line holding the caret of `e`.
fn caret_line(e: &EditState, ctx: &TextNavCtx) -> (r: (Vec<(usize, usize)>, usize))
    requires
        edit_wf(*e),
        fits(ctx.display@),
    ensures
        r.0@.len() == nav_line_count(ctx.line_glyphs@),
        forall|i: int|
            0 <= i < r.0@.len() ==> (#[trigger] r.0@[i]).0 == nav_line(ctx.line_glyphs@, ctx.display@, i).0
                && r.0@[i].1 == nav_line(ctx.line_glyphs@, ctx.display@, i).1,
        r.1 < r.0@.len(),
        r.1 == line_of(ctx.line_glyphs@, ctx.display@, caret_display_byte(*e, ctx.display@), 0),
{
    let ranges = line_byte_ranges(ctx.line_glyphs.as_slice(), ctx.display.as_str());
    let doff = value_to_display_byte(e.value.as_str(), ctx.display.as_str(), e.cursor);
    let ghost lg = ctx.line_glyphs@;
    let ghost d = ctx.display@;
    let n = ranges.len();
    let mut li: usize = 0;
    while li + 1 < n && doff >= ranges[li].1
        invariant
            n == ranges@.len(),
            n == nav_line_count(lg),
            li < n,
            forall|i: int| 0 <= i < n ==> (#[trigger] ranges@[i]).0 == nav_line(lg, d, i).0 && ranges@[i].1 == nav_line(lg, d, i).1,
            line_of(lg, d, doff as int, li as int) == line_of(lg, d, doff as int, 0),
        decreases n - li,
    {
        li = li + 1;
    }
    (ranges, li)
}

/// Line-wise Home / End of a multi-line input: the caret moves to the start or end of its
/// visual line (an end that is a line feed stays before it), mapped back from the display
/// text into the value; the anchor follows unless `select`. The remembered column is
/// dropped and the caret shown with its blink restarted.
pub fn line_home_end(e: &mut EditState, ctx: &TextNavCtx, home: bool, select: bool)
    requires
        edit_wf(*old(e)),
        fits(ctx.display@),
    ensures
        ({
            let v = old(e).value@;
            let d = ctx.display@;
            let hit = home_end_target(ctx.line_glyphs@, d, caret_display_byte(*old(e), d), home);
            let off = display_hit_offset(v, d, hit);
            &&& final(e).cursor == off
            &&& final(e).anchor == if select {
                old(e).anchor as int
            } else {
                off
            }
        }),
        final(e).value == old(e).value,
        final(e).placeholder == old(e).placeholder,
        final(e).composition == old(e).composition,
        final(e).max_length == old(e).max_length,
        final(e).readonly == old(e).readonly,
        !final(e).ideal_cursor_valid,
        final(e).cursor_visible,
        final(e).cursor_timer_ms == 0,
        edit_wf(*final(e)),
{
    let (ranges, li) = caret_line(e, ctx);
    let (start, end) = ranges[li];
    let bytes = ctx.display.as_str().as_bytes();
    let hit = if home {
        start
    } else if end > start && end - 1 < bytes.len() && bytes[end - 1] == 10u8 {
        end - 1
    } else {
        end
    };
    let off = clamp_boundary(e.value.as_str(), display_to_value_byte(ctx.display.as_str(), e.value.as_str(), hit));
    e.cursor = off;
    if !select {
        e.anchor = off;
    }
    e.ideal_cursor_valid = false;
    e.cursor_visible = true;
    e.cursor_timer_ms = 0;
}

/// The visual line a move one line down (`down`) or up goes to from line `cur`, staying on
/// the last or the first line.
pub open spec fn vertical_target(line_glyphs: Seq<usize>, cur: int, down: bool) -> int {
    if down {
        if cur + 1 < nav_line_count(line_glyphs) {
            cur + 1
        } else {
            nav_line_count(line_glyphs) - 1
        }
    } else if cur > 0 {
        cur - 1
    } else {
        0
    }
}

/// First half of an Up / Down caret move in a multi-line input: the visual line to go to
/// from the caret's line, or `None` when the caret is on the first (Up) or last (Down) line
/// already. The host then hit-tests that line at the remembered column
/// (`finish_vertical_move`).
pub fn vertical_move_line(e: &EditState, ctx: &TextNavCtx, down: bool) -> (r: Option<usize>)
    requires
        edit_wf(*e),
        fits(ctx.display@),
        down ==> ctx.line_glyphs@.len() > 0,
    ensures
        ({
            let cur = line_of(ctx.line_glyphs@, ctx.display@, caret_display_byte(*e, ctx.display@), 0);
            let t = vertical_target(ctx.line_glyphs@, cur, down);
            r == if t != cur {
                Some(t as usize)
            } else {
                None::<usize>
            }
        }),
{
    let (ranges, cur) = caret_line(e, ctx);
    let target = if down {
        if cur < ranges.len() - 1 {
            cur + 1
        } else {
            ranges.len() - 1
        }
    } else if cur > 0 {
        cur - 1
    } else {
        0
    };
    if target != cur {
        Some(target)
    } else {
        None
    }
}

/// Second half of an Up / Down caret move: when the move had a line to go to, `hit` is the
/// byte of the display text that the host's hit test found there at the remembered column;
/// the caret moves to it, mapped back into the value, and the anchor follows unless
/// `select`. Either way the remembered column stays in use (the host records it first when
/// it was not) and the caret is shown with its blink restarted.
pub fn finish_vertical_move(e: &mut EditState, ctx: &TextNavCtx, hit: Option<usize>, select: bool)
    requires
        edit_wf(*old(e)),
        fits(ctx.display@),
    ensures
        match hit {
            Some(h) => {
                let off = display_hit_offset(old(e).value@, ctx.display@, h as int);
                &&& final(e).cursor == off
                &&& final(e).anchor == if select {
                    old(e).anchor as int
                } else {
                    off
                }
            },
            None => final(e).cursor == old(e).cursor && final(e).anchor == old(e).anchor,
        },
        final(e).value == old(e).value,
        final(e).placeholder == old(e).placeholder,
        final(e).composition == old(e).composition,
        final(e).max_length == old(e).max_length,
        final(e).readonly == old(e).readonly,
        final(e).ideal_cursor_valid,
        final(e).cursor_visible,
        final(e).cursor_timer_ms == 0,
        edit_wf(*final(e)),
{
    match hit {
        Some(h) => {
            let off = clamp_boundary(e.value.as_str(), display_to_value_byte(ctx.display.as_str(), e.value.as_str(), h));
            e.cursor = off;
            if !select {
                e.anchor = off;
            }
        },
        None => {},
    }
    e.ideal_cursor_valid = true;
    e.cursor_visible = true;
    e.cursor_timer_ms = 0;
}

/// What a copy puts on the clipboard: the selected text, or nothing (empty, and the
/// clipboard is left alone) when there is no selection. The value is not touched.
pub fn copy_selection(e: &EditState) -> (r: String)
    requires
        edit_wf(*e),
    ensures
        e.anchor == e.cursor ==> r@ == Seq::<char>::empty(),
        e.anchor != e.cursor ==> r@ == selected_chars(*e),
{
    if e.anchor == e.cursor {
        return String::new();
    }
    selected_text(e)
}

/// A cut: the selected text goes to the clipboard (returned first; also for a read-only
/// input), then the selection is deleted unless the input is read-only. The second result
/// says whether the value changed.
pub fn cut_selection(e: &mut EditState, _kind: NodeKind) -> (r: (String, bool))
    requires
        edit_wf(*old(e)),
    ensures
        r.0@ == selected_chars(*old(e)),
        old(e).readonly ==> !r.1 && *final(e) == *old(e),
        !old(e).readonly ==> r.1 == (old(e).anchor != old(e).cursor),
        !old(e).readonly && r.1 ==> selection_deleted(*old(e), *final(e)),
        !r.1 ==> *final(e) == *old(e),
        edit_wf(*final(e)),
{
    let s = selected_text(e);
    if e.readonly {
        return (s, false);
    }
    let changed = delete_selection(e);
    (s, changed)
}

} // verus!
