//! Splitting text the way `str::split`, `str::lines` and
//! `str::split_whitespace` do, over character sequences.

use crate::text::{is_space, char_is_space};
use vstd::prelude::*;

verus! {

/// What separates the pieces of a split: one given character, or any
/// white space character.
#[derive(Clone, Copy)]
pub enum Sep {
    /// Exactly this character.
    Char(char),
    /// Any Unicode white space character.
    Space,
}

/// Whether `c` is a separator.
pub open spec fn is_sep(sep: Sep, c: char) -> bool {
    match sep {
        Sep::Char(d) => c == d,
        Sep::Space => is_space(c),
    }
}

/// Whether `c` is a separator.
fn sep_matches(sep: Sep, c: char) -> (b: bool)
    ensures
        b == is_sep(sep, c),
{
    match sep {
        Sep::Char(d) => c == d,
        Sep::Space => char_is_space(c),
    }
}

/// The index of the first separator in `s` at or after `i`, or `s.len()`.
pub open spec fn find_sep(s: Seq<char>, sep: Sep, i: int) -> int
    decreases s.len() - i,
{
    if i < 0 || i >= s.len() {
        s.len() as int
    } else if is_sep(sep, s[i]) {
        i
    } else {
        find_sep(s, sep, i + 1)
    }
}

/// Facts about [`find_sep`].
pub proof fn lemma_find_sep(s: Seq<char>, sep: Sep, i: int)
    requires
        0 <= i <= s.len(),
    ensures
        i <= find_sep(s, sep, i) <= s.len(),
        find_sep(s, sep, i) < s.len() ==> is_sep(sep, s[find_sep(s, sep, i)]),
        forall|j: int| i <= j < find_sep(s, sep, i) ==> !is_sep(sep, #[trigger] s[j]),
    decreases s.len() - i,
{
    if i < s.len() && !is_sep(sep, s[i]) {
        lemma_find_sep(s, sep, i + 1);
    }
}

/// The pieces `str::split` yields: `s` cut at every separator, keeping empty
/// pieces, so that there is always one piece more than there are separators.
pub open spec fn split_on(s: Seq<char>, sep: Sep) -> Seq<Seq<char>>
    decreases s.len(),
{
    let k = find_sep(s, sep, 0);
    if k >= s.len() {
        seq![s]
    } else {
        proof {
            lemma_find_sep(s, sep, 0);
        }
        seq![s.take(k)] + split_on(s.skip(k + 1), sep)
    }
}

/// The index of the first separator in `v[from..to]`, or `to`.
fn find_sep_in(v: &Vec<char>, sep: Sep, from: usize, to: usize) -> (k: usize)
    requires
        from <= to <= v@.len(),
    ensures
        k - from == find_sep(v@.subrange(from as int, to as int), sep, 0),
        from <= k <= to,
{
    let ghost s = v@.subrange(from as int, to as int);
    let mut i = from;
    while i < to
        invariant
            from <= i <= to <= v@.len(),
            s == v@.subrange(from as int, to as int),
            find_sep(s, sep, 0) == find_sep(s, sep, i - from),
        decreases to - i,
    {
        assert(s[i - from] == v@[i as int]);
        if sep_matches(sep, v[i]) {
            return i;
        }
        i = i + 1;
    }
    i
}

/// The bounds of the pieces `str::split` yields from `v[from..to]`.
pub fn split_ranges(v: &Vec<char>, sep: Sep, from: usize, to: usize) -> (pieces: Vec<(usize, usize)>)
    requires
        from <= to <= v@.len(),
    ensures
        pieces@.len() == split_on(v@.subrange(from as int, to as int), sep).len(),
        forall|i: int|
            0 <= i < pieces@.len() ==> {
                &&& from <= (#[trigger] pieces@[i]).0 <= pieces@[i].1 <= to
                &&& v@.subrange(pieces@[i].0 as int, pieces@[i].1 as int) == split_on(
                    v@.subrange(from as int, to as int),
                    sep,
                )[i]
            },
{
    let ghost whole = split_on(v@.subrange(from as int, to as int), sep);
    let mut pieces: Vec<(usize, usize)> = Vec::new();
    let mut start = from;
    loop
        invariant
            from <= start <= to <= v@.len(),
            whole == split_on(v@.subrange(from as int, to as int), sep),
            whole == pieces@.map_values(|p: (usize, usize)| v@.subrange(p.0 as int, p.1 as int)) + split_on(
                v@.subrange(start as int, to as int),
                sep,
            ),
            forall|i: int| 0 <= i < pieces@.len() ==> from <= (#[trigger] pieces@[i]).0 <= pieces@[i].1 <= to,
        decreases to - start,
    {
        let ghost rest = v@.subrange(start as int, to as int);
        let k = find_sep_in(v, sep, start, to);
        proof {
            lemma_find_sep(rest, sep, 0);
        }
        let ghost before = pieces@;
        pieces.push((start, k));
        let ghost mapped = |p: (usize, usize)| v@.subrange(p.0 as int, p.1 as int);
        assert(pieces@.map_values(mapped) =~= before.map_values(mapped).push(v@.subrange(start as int, k as int)));
        if k == to {
            assert(split_on(rest, sep) == seq![rest]);
            assert(whole =~= pieces@.map_values(mapped));
            assert forall|i: int|
                0 <= i < pieces@.len() implies v@.subrange(pieces@[i].0 as int, pieces@[i].1 as int) == whole[i] by {
                assert(pieces@.map_values(mapped)[i] == mapped(pieces@[i]));
            }
            return pieces;
        }
        assert(rest.take(k - start) =~= v@.subrange(start as int, k as int));
        assert(rest.skip(k - start + 1) =~= v@.subrange(k + 1, to as int));
        assert(split_on(rest, sep) == seq![rest.take(k - start)] + split_on(rest.skip(k - start + 1), sep));
        assert(whole =~= pieces@.map_values(mapped) + split_on(v@.subrange(k + 1, to as int), sep));
        start = k + 1;
    }
}

/// `l` without the `\r` of a `\r\n` line ending.
pub open spec fn strip_cr(l: Seq<char>) -> Seq<char> {
    if l.len() > 0 && l.last() == '\r' {
        l.drop_last()
    } else {
        l
    }
}

/// The lines of `pieces`, the pieces of a text cut at every `\n`: each piece
/// but the last ended with a `\n`, so it loses a `\r` before it; the last one
/// is a line only when it is not empty.
pub open spec fn lines_of_pieces(pieces: Seq<Seq<char>>) -> Seq<Seq<char>>
    decreases pieces.len(),
{
    if pieces.len() == 0 {
        seq![]
    } else if pieces.len() == 1 {
        if pieces[0].len() == 0 {
            seq![]
        } else {
            seq![pieces[0]]
        }
    } else {
        seq![strip_cr(pieces[0])] + lines_of_pieces(pieces.drop_first())
    }
}

/// The lines `str::lines` yields: the text cut at every `\n`, a `\r` before
/// the `\n` dropped, and no empty line after a final line ending.
pub open spec fn lines(s: Seq<char>) -> Seq<Seq<char>> {
    lines_of_pieces(split_on(s, Sep::Char('\n')))
}

/// The pieces of `v[from..to]`, as character vectors.
pub fn split_pieces(v: &Vec<char>, sep: Sep, from: usize, to: usize) -> (pieces: Vec<Vec<char>>)
    requires
        from <= to <= v@.len(),
    ensures
        pieces@.map_values(|p: Vec<char>| p@) == split_on(v@.subrange(from as int, to as int), sep),
{
    let ranges = split_ranges(v, sep, from, to);
    let ghost whole = split_on(v@.subrange(from as int, to as int), sep);
    let mut out: Vec<Vec<char>> = Vec::new();
    let mut i: usize = 0;
    while i < ranges.len()
        invariant
            from <= to <= v@.len(),
            out@.len() == i,
            ranges@.len() == whole.len(),
            whole == split_on(v@.subrange(from as int, to as int), sep),
            forall|j: int|
                0 <= j < ranges@.len() ==> {
                    &&& from <= (#[trigger] ranges@[j]).0 <= ranges@[j].1 <= to
                    &&& v@.subrange(ranges@[j].0 as int, ranges@[j].1 as int) == whole[j]
                },
            to <= v@.len(),
            0 <= i <= ranges@.len(),
            out@.map_values(|p: Vec<char>| p@) == whole.take(i as int),
        decreases ranges.len() - i,
    {
        let (a, b) = ranges[i];
        let piece = slice_chars(v, a, b);
        let ghost prev = out@;
        out.push(piece);
        assert(out@ == prev.push(piece));
        assert(ranges@[i as int] == (a, b));
        assert(piece@ == whole[i as int]);
        assert forall|k: int| 0 <= k < i implies out@[k]@ == whole.take(i + 1)[k] by {
            assert(out@[k] == prev[k]);
            assert(prev.map_values(|p: Vec<char>| p@)[k] == prev[k]@);
        }
        assert(out@.map_values(|p: Vec<char>| p@) =~= whole.take(i + 1));
        i = i + 1;
    }
    assert(whole.take(whole.len() as int) =~= whole);
    out
}

/// The characters `v[from..to]`, copied.
pub fn slice_chars(v: &Vec<char>, from: usize, to: usize) -> (out: Vec<char>)
    requires
        from <= to <= v@.len(),
    ensures
        out@ == v@.subrange(from as int, to as int),
{
    let mut out: Vec<char> = Vec::new();
    let mut i = from;
    while i < to
        invariant
            from <= i <= to <= v@.len(),
            out@ == v@.subrange(from as int, i as int),
        decreases to - i,
    {
        out.push(v[i]);
        assert(out@ =~= v@.subrange(from as int, i + 1));
        i = i + 1;
    }
    out
}

/// The lines of `v`, as `str::lines` yields them.
pub fn lines_exec(v: &Vec<char>) -> (out: Vec<Vec<char>>)
    ensures
        out@.map_values(|l: Vec<char>| l@) == lines(v@),
{
    let pieces = split_pieces(v, Sep::Char('\n'), 0, v.len());
    let ghost pv = pieces@.map_values(|p: Vec<char>| p@);
    assert(v@.subrange(0, v@.len() as int) =~= v@);
    let mut out: Vec<Vec<char>> = Vec::new();
    let mut i: usize = 0;
    proof {
        lemma_split_nonempty(v@, Sep::Char('\n'));
        assert(pv.skip(0) =~= pv);
    }
    while i + 1 < pieces.len()
        invariant
            pv == pieces@.map_values(|p: Vec<char>| p@),
            pv.len() >= 1,
            0 <= i < pv.len(),
            lines_of_pieces(pv) == out@.map_values(|l: Vec<char>| l@) + lines_of_pieces(pv.skip(i as int)),
        decreases pieces.len() - i,
    {
        let p = &pieces[i];
        let mut line = p.clone();
        proof {
            assert(line@ == p@) by {
                assert(line@ =~= p@);
            }
        }
        if line.len() > 0 && line[line.len() - 1] == '\r' {
            line.pop();
        }
        assert(line@ == strip_cr(pv[i as int]));
        let ghost prev = out@;
        out.push(line);
        assert(out@ == prev.push(line));
        assert(pv.skip(i as int).drop_first() =~= pv.skip(i + 1));
        assert(pv.skip(i as int)[0] == pv[i as int]);
        assert(out@.map_values(|l: Vec<char>| l@) =~= prev.map_values(|l: Vec<char>| l@).push(strip_cr(pv[i as int])));
        i = i + 1;
    }
    let last = &pieces[i];
    assert(pv.skip(i as int) =~= seq![pv[i as int]]);
    if last.len() > 0 {
        let ghost prev = out@;
        let l = slice_chars(last, 0, last.len());
        assert(l@ =~= last@);
        out.push(l);
        assert(out@ == prev.push(l));
        assert(out@.map_values(|l: Vec<char>| l@) =~= prev.map_values(|l: Vec<char>| l@) + lines_of_pieces(
            pv.skip(i as int),
        ));
    } else {
        assert(out@.map_values(|l: Vec<char>| l@) =~= out@.map_values(|l: Vec<char>| l@) + lines_of_pieces(
            pv.skip(i as int),
        ));
    }
    out
}

/// A split always yields at least one piece.
pub proof fn lemma_split_nonempty(s: Seq<char>, sep: Sep)
    ensures
        split_on(s, sep).len() >= 1,
{
}

/// The pieces `str::split_whitespace` yields: the non-empty runs between
/// white space.
pub open spec fn words(s: Seq<char>) -> Seq<Seq<char>> {
    split_on(s, Sep::Space).filter(|w: Seq<char>| w.len() > 0)
}

/// The words of `v[from..to]`, as `str::split_whitespace` yields them.
pub fn words_exec(v: &Vec<char>, from: usize, to: usize) -> (out: Vec<Vec<char>>)
    requires
        from <= to <= v@.len(),
    ensures
        out@.map_values(|w: Vec<char>| w@) == words(v@.subrange(from as int, to as int)),
{
    let pieces = split_pieces(v, Sep::Space, from, to);
    let ghost pv = pieces@.map_values(|p: Vec<char>| p@);
    let ghost nonempty = |w: Seq<char>| w.len() > 0;
    let mut out: Vec<Vec<char>> = Vec::new();
    let mut i: usize = 0;
    while i < pieces.len()
        invariant
            pv == pieces@.map_values(|p: Vec<char>| p@),
            nonempty == (|w: Seq<char>| w.len() > 0),
            0 <= i <= pv.len(),
            out@.map_values(|w: Vec<char>| w@) == pv.take(i as int).filter(nonempty),
        decreases pieces.len() - i,
    {
        proof {
            reveal_with_fuel(Seq::<_>::filter, 1);
            assert(pv.take(i + 1).drop_last() =~= pv.take(i as int));
            assert(pv[i as int] == pieces@[i as int]@);
        }
        if pieces[i].len() > 0 {
            let w = slice_chars(&pieces[i], 0, pieces[i].len());
            assert(w@ =~= pieces@[i as int]@);
            let ghost prev = out@;
            out.push(w);
            assert(out@ == prev.push(w));
            assert(out@.map_values(|w: Vec<char>| w@) =~= pv.take(i as int).filter(nonempty).push(pv[i as int]));
        }
        i = i + 1;
    }
    assert(pv.take(pv.len() as int) =~= pv);
    out
}

} // verus!
