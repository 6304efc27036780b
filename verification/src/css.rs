//! Inline CSS declaration lists (`"width:100px; background:#f00"`): splitting them into
//! trimmed `(property, value)` pairs and handing those to a style.

use vstd::prelude::*;
use crate::strs::{is_whitespace, push_char, whitespace};

verus! {

/// `s` split at every `sep` (n separators give n + 1 pieces, empty ones included).
pub open spec fn split_on(s: Seq<char>, sep: char) -> Seq<Seq<char>>
    decreases s.len(),
{
    if s.len() == 0 {
        seq![Seq::<char>::empty()]
    } else {
        let prev = split_on(s.drop_last(), sep);
        if s.last() == sep {
            prev.push(Seq::<char>::empty())
        } else {
            prev.update(prev.len() - 1, prev.last().push(s.last()))
        }
    }
}

/// `s` without its leading whitespace.
pub open spec fn trim_start(s: Seq<char>) -> Seq<char>
    decreases s.len(),
{
    if s.len() > 0 && whitespace(s[0]) {
        trim_start(s.drop_first())
    } else {
        s
    }
}

/// `s` without its trailing whitespace.
pub open spec fn trim_end(s: Seq<char>) -> Seq<char>
    decreases s.len(),
{
    if s.len() > 0 && whitespace(s.last()) {
        trim_end(s.drop_last())
    } else {
        s
    }
}

/// `s` without leading and trailing whitespace.
pub open spec fn trim(s: Seq<char>) -> Seq<char> {
    trim_end(trim_start(s))
}

/// Position of the first `:` of `s`, if any.
pub open spec fn first_colon(s: Seq<char>) -> Option<int>
    decreases s.len(),
{
    if s.len() == 0 {
        None
    } else {
        match first_colon(s.drop_last()) {
            Some(i) => Some(i),
            None => if s.last() == ':' {
                Some(s.len() - 1)
            } else {
                None
            },
        }
    }
}

/// The declaration one `;`-separated piece holds: after trimming, the text before its first
/// `:` and the text after it, both trimmed; a piece without `:` holds none.
pub open spec fn declaration(piece: Seq<char>) -> Option<(Seq<char>, Seq<char>)> {
    let t = trim(piece);
    match first_colon(t) {
        Some(i) => Some((trim(t.subrange(0, i)), trim(t.subrange(i + 1, t.len() as int)))),
        None => None,
    }
}

/// The declarations of a list of pieces, in order.
pub open spec fn declarations_of(pieces: Seq<Seq<char>>) -> Seq<(Seq<char>, Seq<char>)>
    decreases pieces.len(),
{
    if pieces.len() == 0 {
        Seq::empty()
    } else {
        let prev = declarations_of(pieces.drop_last());
        match declaration(pieces.last()) {
            Some(d) => prev.push(d),
            None => prev,
        }
    }
}

/// The declarations of an inline CSS text, in order.
pub open spec fn css_declarations_spec(css: Seq<char>) -> Seq<(Seq<char>, Seq<char>)> {
    declarations_of(split_on(css, ';'))
}

proof fn lemma_first_colon(s: Seq<char>)
    ensures
        first_colon(s) matches Some(i) ==> 0 <= i < s.len() && s[i] == ':' && forall|j: int|
            0 <= j < i ==> s[j] != ':',
        first_colon(s) is None ==> forall|j: int| 0 <= j < s.len() ==> s[j] != ':',
    decreases s.len(),
{
    if s.len() > 0 {
        lemma_first_colon(s.drop_last());
        assert forall|j: int| 0 <= j < s.len() - 1 implies s.drop_last()[j] == s[j] by {}
    }
}

/// The bounds of `s[lo..hi]` once leading and trailing whitespace is dropped.
fn trimmed_range(s: &Vec<char>, lo: usize, hi: usize) -> (r: (usize, usize))
    requires
        lo <= hi <= s@.len(),
    ensures
        lo <= r.0 <= r.1 <= hi,
        s@.subrange(r.0 as int, r.1 as int) == trim(s@.subrange(lo as int, hi as int)),
{
    let mut a = lo;
    while a < hi && is_whitespace(s[a])
        invariant
            lo <= a <= hi <= s@.len(),
            trim_start(s@.subrange(lo as int, hi as int)) == trim_start(s@.subrange(a as int, hi as int)),
        decreases hi - a,
    {
        proof {
            assert(s@.subrange(a as int, hi as int).drop_first() =~= s@.subrange(a + 1, hi as int));
        }
        a = a + 1;
    }
    proof {
        if a < hi {
            assert(s@.subrange(a as int, hi as int)[0] == s@[a as int]);
        }
    }
    let mut b = hi;
    while b > a && is_whitespace(s[b - 1])
        invariant
            lo <= a <= b <= hi <= s@.len(),
            trim_start(s@.subrange(lo as int, hi as int)) == s@.subrange(a as int, hi as int),
            trim_end(s@.subrange(a as int, hi as int)) == trim_end(s@.subrange(a as int, b as int)),
        decreases b - a,
    {
        proof {
            assert(s@.subrange(a as int, b as int).drop_last() =~= s@.subrange(a as int, b - 1));
            assert(s@.subrange(a as int, b as int).last() == s@[b - 1]);
        }
        b = b - 1;
    }
    proof {
        if b > a {
            assert(s@.subrange(a as int, b as int).last() == s@[b - 1]);
        }
    }
    (a, b)
}

/// Position of the first `:` in `s[lo..hi]`, if any.
fn find_colon(s: &Vec<char>, lo: usize, hi: usize) -> (r: Option<usize>)
    requires
        lo <= hi <= s@.len(),
    ensures
        match r {
            Some(i) => lo <= i < hi && first_colon(s@.subrange(lo as int, hi as int)) == Some(
                i - lo,
            ),
            None => first_colon(s@.subrange(lo as int, hi as int)) is None,
        },
{
    let ghost t = s@.subrange(lo as int, hi as int);
    proof {
        lemma_first_colon(t);
    }
    let mut i = lo;
    while i < hi
        invariant
            lo <= i <= hi <= s@.len(),
            t == s@.subrange(lo as int, hi as int),
            forall|j: int| lo <= j < i ==> s@[j] != ':',
        decreases hi - i,
    {
        if s[i] == ':' {
            proof {
                lemma_first_colon(t);
                assert(t[i - lo] == ':');
                match first_colon(t) {
                    Some(k) => {
                        assert(t[k] == s@[lo + k]);
                        if k < i - lo {
                            assert(s@[lo + k] != ':');
                        }
                        if k > i - lo {
                            assert(t[i - lo] != ':');
                        }
                    },
                    None => {
                        assert(t[i - lo] != ':');
                    },
                }
            }
            return Some(i);
        }
        i = i + 1;
    }
    proof {
        lemma_first_colon(t);
        match first_colon(t) {
            Some(k) => {
                assert(t[k] == s@[lo + k]);
            },
            None => {},
        }
    }
    None
}

/// The characters `s[lo..hi]` as a string.
fn string_of(s: &Vec<char>, lo: usize, hi: usize) -> (r: String)
    requires
        lo <= hi <= s@.len(),
    ensures
        r@ == s@.subrange(lo as int, hi as int),
{
    let mut out = String::new();
    let mut i = lo;
    while i < hi
        invariant
            lo <= i <= hi <= s@.len(),
            out@ == s@.subrange(lo as int, i as int),
        decreases hi - i,
    {
        push_char(&mut out, s[i]);
        proof {
            assert(s@.subrange(lo as int, i + 1) =~= s@.subrange(lo as int, i as int).push(s@[i as int]));
        }
        i = i + 1;
    }
    out
}

/// The characters of a string.
fn chars_of(s: &str) -> (r: Vec<char>)
    ensures
        r@ == s@,
{
    let n = s.unicode_len();
    let mut out: Vec<char> = Vec::new();
    let mut i: usize = 0;
    while i < n
        invariant
            n == s@.len(),
            i <= n,
            out@ == s@.subrange(0, i as int),
        decreases n - i,
    {
        out.push(s.get_char(i));
        proof {
            assert(s@.subrange(0, i + 1) =~= s@.subrange(0, i as int).push(s@[i as int]));
        }
        i = i + 1;
    }
    proof {
        assert(s@.subrange(0, n as int) =~= s@);
    }
    out
}

/// The declaration held by the piece `s[lo..hi]`.
fn parse_declaration(s: &Vec<char>, lo: usize, hi: usize) -> (r: Option<(String, String)>)
    requires
        lo <= hi <= s@.len(),
    ensures
        match declaration(s@.subrange(lo as int, hi as int)) {
            Some(d) => r matches Some(x) && x.0@ == d.0 && x.1@ == d.1,
            None => r is None,
        },
{
    let (a, b) = trimmed_range(s, lo, hi);
    let ghost t = s@.subrange(a as int, b as int);
    match find_colon(s, a, b) {
        None => None,
        Some(i) => {
            let (pa, pb) = trimmed_range(s, a, i);
            let (va, vb) = trimmed_range(s, i + 1, b);
            proof {
                assert(t.subrange(0, i - a) =~= s@.subrange(a as int, i as int));
                assert(t.subrange(i - a + 1, t.len() as int) =~= s@.subrange(i + 1, b as int));
            }
            Some((string_of(s, pa, pb), string_of(s, va, vb)))
        },
    }
}

/// The `(property, value)` declarations of an inline CSS text, in order: the text is split
/// at every `;`, each piece is trimmed, pieces without `:` are skipped, and the rest are split
/// at their first `:` into a trimmed property and a trimmed value.
pub fn css_declarations(css: &str) -> (r: Vec<(String, String)>)
    ensures
        r@.len() == css_declarations_spec(css@).len(),
        forall|i: int|
            0 <= i < r@.len() ==> (#[trigger] r@[i]).0@ == css_declarations_spec(css@)[i].0
                && r@[i].1@ == css_declarations_spec(css@)[i].1,
{
    let c = chars_of(css);
    let n = c.len();
    let mut out: Vec<(String, String)> = Vec::new();
    let ghost mut done: Seq<Seq<char>> = Seq::empty();
    let mut start: usize = 0;
    let mut i: usize = 0;
    proof {
        assert(c@.subrange(0, 0) =~= Seq::<char>::empty());
        assert(split_on(Seq::<char>::empty(), ';') == seq![Seq::<char>::empty()]);
        assert(done.push(Seq::<char>::empty()) =~= seq![Seq::<char>::empty()]);
    }
    while i < n
        invariant
            n == c@.len(),
            start <= i <= n,
            split_on(c@.subrange(0, i as int), ';') == done.push(c@.subrange(start as int, i as int)),
            out@.len() == declarations_of(done).len(),
            forall|j: int|
                0 <= j < out@.len() ==> (#[trigger] out@[j]).0@ == declarations_of(done)[j].0
                    && out@[j].1@ == declarations_of(done)[j].1,
        decreases n - i,
    {
        proof {
            assert(c@.subrange(0, i + 1).drop_last() =~= c@.subrange(0, i as int));
            assert(c@.subrange(0, i + 1).last() == c@[i as int]);
        }
        if c[i] == ';' {
            let d = parse_declaration(&c, start, i);
            let ghost piece = c@.subrange(start as int, i as int);
            proof {
                assert(declarations_of(done.push(piece)) == match declaration(piece) {
                    Some(x) => declarations_of(done).push(x),
                    None => declarations_of(done),
                }) by {
                    assert(done.push(piece).drop_last() =~= done);
                }
            }
            match d {
                Some(pair) => {
                    out.push(pair);
                },
                None => {},
            }
            proof {
                done = done.push(piece);
                assert(c@.subrange(i + 1, i + 1) =~= Seq::<char>::empty());
            }
            start = i + 1;
        } else {
            proof {
                assert(c@.subrange(start as int, i + 1) =~= c@.subrange(start as int, i as int).push(
                    c@[i as int],
                ));
            }
        }
        i = i + 1;
    }
    let d = parse_declaration(&c, start, n);
    let ghost piece = c@.subrange(start as int, n as int);
    proof {
        assert(c@.subrange(0, n as int) =~= css@);
        assert(declarations_of(done.push(piece)) == match declaration(piece) {
            Some(x) => declarations_of(done).push(x),
            None => declarations_of(done),
        }) by {
            assert(done.push(piece).drop_last() =~= done);
        }
    }
    match d {
        Some(pair) => {
            out.push(pair);
        },
        None => {},
    }
    out
}

/// A style that accepts single `(property, value)` declarations; `apply_decl` answers whether
/// the declaration was understood. `applied` is the sequence of declarations handed to the
/// style so far, in order: each `apply_decl` adds its own at the end.
pub trait DeclTarget {
    spec fn applied(&self) -> Seq<(Seq<char>, Seq<char>)>;

    fn apply_decl(&mut self, prop: &str, val: &str) -> (r: bool)
        ensures
            final(self).applied() == old(self).applied().push((prop@, val@)),
    ;
}

/// Splitting never gives an empty list of pieces.
proof fn lemma_split_nonempty(s: Seq<char>, sep: char)
    ensures
        split_on(s, sep).len() >= 1,
    decreases s.len(),
{
    if s.len() > 0 {
        lemma_split_nonempty(s.drop_last(), sep);
    }
}

/// Splitting `a`, a separator and `b` gives the pieces of `a`, then those of `b`.
proof fn lemma_split_concat(a: Seq<char>, sep: char, b: Seq<char>)
    ensures
        split_on(a + seq![sep] + b, sep) == split_on(a, sep) + split_on(b, sep),
    decreases b.len(),
{
    let s = a + seq![sep] + b;
    if b.len() == 0 {
        assert(s =~= a.push(sep));
        assert(s.drop_last() =~= a);
        assert(split_on(b, sep) == seq![Seq::<char>::empty()]);
        assert(split_on(a, sep).push(Seq::<char>::empty()) =~= split_on(a, sep) + seq![Seq::<char>::empty()]);
    } else {
        let b1 = b.drop_last();
        lemma_split_concat(a, sep, b1);
        lemma_split_nonempty(a, sep);
        lemma_split_nonempty(b1, sep);
        assert(s.drop_last() =~= a + seq![sep] + b1);
        assert(s.last() == b.last());
        let pa = split_on(a, sep);
        let pb = split_on(b1, sep);
        if b.last() == sep {
            assert((pa + pb).push(Seq::<char>::empty()) =~= pa + pb.push(Seq::<char>::empty()));
        } else {
            let full = pa + pb;
            assert(full.update(full.len() - 1, full.last().push(b.last())) =~= pa + pb.update(
                pb.len() - 1,
                pb.last().push(b.last()),
            ));
        }
    }
}

/// The declarations of two lists of pieces one after the other.
proof fn lemma_declarations_concat(p: Seq<Seq<char>>, q: Seq<Seq<char>>)
    ensures
        declarations_of(p + q) == declarations_of(p) + declarations_of(q),
    decreases q.len(),
{
    if q.len() == 0 {
        assert(p + q =~= p);
        assert(declarations_of(p) + declarations_of(q) =~= declarations_of(p));
    } else {
        lemma_declarations_concat(p, q.drop_last());
        assert((p + q).drop_last() =~= p + q.drop_last());
        assert((p + q).last() == q.last());
        match declaration(q.last()) {
            Some(d) => {
                assert((declarations_of(p) + declarations_of(q.drop_last())).push(d) =~= declarations_of(p)
                    + declarations_of(q.drop_last()).push(d));
            },
            None => {},
        }
    }
}

/// Applying `a`, a `;` and `b` hands over the declarations of `a`, then those of `b`: the
/// same as applying `a` and then `b`.
pub proof fn law_css_split(a: Seq<char>, b: Seq<char>)
    ensures
        css_declarations_spec(a + seq![';'] + b) == css_declarations_spec(a) + css_declarations_spec(b),
{
    lemma_split_concat(a, ';', b);
    lemma_declarations_concat(split_on(a, ';'), split_on(b, ';'));
}

/// A style that keeps the declarations handed to it, in order, and takes every one.
pub struct DeclLog {
    pub decls: Vec<(String, String)>,
}

impl DeclTarget for DeclLog {
    open spec fn applied(&self) -> Seq<(Seq<char>, Seq<char>)> {
        self.decls@.map_values(|d: (String, String)| (d.0@, d.1@))
    }

    fn apply_decl(&mut self, prop: &str, val: &str) -> (r: bool) {
        self.decls.push((String::from_str(prop), String::from_str(val)));
        proof {
            assert(self.applied() =~= old(self).applied().push((prop@, val@)));
        }
        true
    }
}

/// Applies the declarations of an inline CSS text to a style, in order: exactly
/// `css_declarations` of `css` are handed to `apply_decl`, one after the other; empty pieces
/// and pieces without a colon are skipped, and a declaration the style does not understand
/// is ignored.
pub fn apply_css<T: DeclTarget>(style: &mut T, css: &str)
    ensures
        final(style).applied() == old(style).applied() + css_declarations_spec(css@),
{
    let decls = css_declarations(css);
    let ghost start = style.applied();
    let ghost want = css_declarations_spec(css@);
    let mut i: usize = 0;
    while i < decls.len()
        invariant
            i <= decls@.len(),
            decls@.len() == want.len(),
            forall|j: int|
                0 <= j < decls@.len() ==> (#[trigger] decls@[j]).0@ == want[j].0 && decls@[j].1@
                    == want[j].1,
            style.applied() == start + want.take(i as int),
        decreases decls@.len() - i,
    {
        let _ = style.apply_decl(decls[i].0.as_str(), decls[i].1.as_str());
        proof {
            assert(want.take(i + 1) =~= want.take(i as int).push(want[i as int]));
        }
        i = i + 1;
    }
    proof {
        assert(want.take(want.len() as int) =~= want);
    }
}

} // verus!
