//! Glyph-to-byte queries of laid-out text: which bytes of the value each laid-out line covers.

use vstd::prelude::*;
use crate::text::{
    byte_len, char_at, char_byte, char_width_of, fits, lemma_boundary_basics,
    lemma_byte_offset_step, lemma_byte_offset_strict, lemma_take_boundary, text_bytes, byte_offset,
};

verus! {

/// Number of glyphs on the first `i` lines.
pub open spec fn glyphs_before(line_glyphs: Seq<usize>, i: int) -> int
    decreases i,
{
    if i <= 0 {
        0
    } else {
        glyphs_before(line_glyphs, i - 1) + line_glyphs[i - 1]
    }
}

proof fn lemma_glyphs_monotone(line_glyphs: Seq<usize>, i: int)
    ensures
        glyphs_before(line_glyphs, i) >= 0,
    decreases i,
{
    if i > 0 {
        lemma_glyphs_monotone(line_glyphs, i - 1);
    }
}

/// Byte range of line `i`: the glyphs of the lines are matched one for one, in order, with
/// the characters of the value (a glyph past the last character covers nothing).
pub open spec fn line_range(line_glyphs: Seq<usize>, value: Seq<char>, i: int) -> (int, int) {
    (
        char_byte(value, glyphs_before(line_glyphs, i)),
        char_byte(value, glyphs_before(line_glyphs, i + 1)),
    )
}

/// The byte range `[start, end)` of the value covered by each laid-out line, given each line's
/// glyph count (a wrapped line break is a glyph of its line). No lines gives the one range
/// `(0, 0)`.
pub fn line_byte_ranges(line_glyphs: &[usize], value: &str) -> (r: Vec<(usize, usize)>)
    requires
        fits(value@),
    ensures
        line_glyphs@.len() == 0 ==> r@ == seq![(0usize, 0usize)],
        line_glyphs@.len() > 0 ==> r@.len() == line_glyphs@.len() && forall|i: int|
            0 <= i < r@.len() ==> (#[trigger] r@[i]).0 == line_range(line_glyphs@, value@, i).0
                && r@[i].1 == line_range(line_glyphs@, value@, i).1,
{
    proof {
        lemma_boundary_basics(value@);
        assert(value@.take(value@.len() as int) =~= value@);
        assert(byte_offset(value@, value@.len() as int) == text_bytes(value@).len());
    }
    let n = byte_len(value);
    proof {
        lemma_glyphs_monotone(line_glyphs@, 0);
    }
    let mut ranges: Vec<(usize, usize)> = Vec::new();
    let mut pos: usize = 0;
    let ghost mut consumed: int = 0;
    let mut li: usize = 0;
    while li < line_glyphs.len()
        invariant
            fits(value@),
            n == text_bytes(value@).len(),
            value@.take(value@.len() as int) == value@,
            li <= line_glyphs@.len(),
            consumed == glyphs_before(line_glyphs@, li as int),
            pos == char_byte(value@, consumed),
            ranges@.len() == li,
            forall|i: int|
                0 <= i < li ==> (#[trigger] ranges@[i]).0 == line_range(line_glyphs@, value@, i).0
                    && ranges@[i].1 == line_range(line_glyphs@, value@, i).1,
        decreases line_glyphs@.len() - li,
    {
        proof {
            lemma_glyphs_monotone(line_glyphs@, li as int);
        }
        let start = pos;
        let count = line_glyphs[li];
        let mut j: usize = 0;
        while j < count
            invariant
                fits(value@),
                n == text_bytes(value@).len(),
                value@.take(value@.len() as int) == value@,
                j <= count,
                pos == char_byte(value@, consumed + j),
                consumed >= 0,
            decreases count - j,
        {
            if pos < n {
                let ghost k = consumed + j;
                proof {
                    assert(k < value@.len()) by {
                        if k >= value@.len() {
                            assert(pos == n);
                        }
                    }
                    lemma_take_boundary(value@, k);
                }
                let c = char_at(value, pos);
                proof {
                    lemma_byte_offset_step(value@, k);
                    lemma_take_boundary(value@, k + 1);
                }
                pos = pos + char_width_of(c);
                proof {
                    if k + 1 == value@.len() {
                        assert(byte_offset(value@, k + 1) == n);
                    }
                }
            } else {
                proof {
                    let k = consumed + j;
                    if k < value@.len() {
                        lemma_byte_offset_strict(value@, k, value@.len() as int);
                    }
                }
            }
            j = j + 1;
        }
        ranges.push((start, pos));
        proof {
            consumed = consumed + count;
        }
        li = li + 1;
    }
    if ranges.len() == 0 {
        ranges.push((0, 0));
    }
    ranges
}

} // verus!
