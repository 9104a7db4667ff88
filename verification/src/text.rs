//! Character-level model of a flag value: splitting on `,`, trimming
//! white space, and comparing spellings.
use vstd::prelude::*;

verus! {

/// Whether `c` has the Unicode `White_Space` property (what
/// `char::is_whitespace` answers): tab through carriage return, space,
/// next line, no-break space, ogham space mark, the en quad through hair
/// space block, line and paragraph separators, narrow no-break space,
/// medium mathematical space and ideographic space.
pub open spec fn white_space(c: char) -> bool {
    ||| '\t' <= c <= '\r'
    ||| c == ' '
    ||| c == '\u{85}'
    ||| c == '\u{a0}'
    ||| c == '\u{1680}'
    ||| '\u{2000}' <= c <= '\u{200a}'
    ||| c == '\u{2028}'
    ||| c == '\u{2029}'
    ||| c == '\u{202f}'
    ||| c == '\u{205f}'
    ||| c == '\u{3000}'
}

/// Whether `c` is white space.
pub fn is_white_space(c: char) -> (r: bool)
    ensures
        r == white_space(c),
{
    if c == ' ' {
        true
    } else if '\t' > c {
        false
    } else if c <= '\r' {
        true
    } else if '\u{85}' > c {
        false
    } else if '\u{2000}' > c {
        c == '\u{85}' || c == '\u{a0}' || c == '\u{1680}'
    } else if c <= '\u{200a}' {
        true
    } else {
        c == '\u{2028}' || c == '\u{2029}' || c == '\u{202f}' || c == '\u{205f}' || c
            == '\u{3000}'
    }
}

/// `s` without its leading white space.
pub open spec fn trim_start(s: Seq<char>) -> Seq<char>
    decreases s.len(),
{
    if s.len() > 0 && white_space(s[0]) {
        trim_start(s.drop_first())
    } else {
        s
    }
}

/// `s` without its trailing white space.
pub open spec fn trim_end(s: Seq<char>) -> Seq<char>
    decreases s.len(),
{
    if s.len() > 0 && white_space(s.last()) {
        trim_end(s.drop_last())
    } else {
        s
    }
}

/// `s` without leading and trailing white space (what `str::trim` gives).
pub open spec fn trim(s: Seq<char>) -> Seq<char> {
    trim_end(trim_start(s))
}

/// The pieces of `s` between the commas, in order: `n` commas give `n + 1`
/// pieces, empty ones included (what `str::split(',')` gives).
pub open spec fn pieces(s: Seq<char>) -> Seq<Seq<char>>
    decreases s.len(),
{
    if s.len() == 0 {
        seq![Seq::empty()]
    } else {
        let p = pieces(s.drop_last());
        if s.last() == ',' {
            p.push(Seq::empty())
        } else {
            p.update(p.len() - 1, p.last().push(s.last()))
        }
    }
}

/// There is always at least one piece.
pub proof fn lemma_pieces_nonempty(s: Seq<char>)
    ensures
        pieces(s).len() >= 1,
    decreases s.len(),
{
    if s.len() > 0 {
        lemma_pieces_nonempty(s.drop_last());
    }
}

/// Splitting `a` followed by a comma and `b` gives the pieces of `a`
/// followed by the pieces of `b`.
pub proof fn lemma_pieces_concat(a: Seq<char>, b: Seq<char>)
    ensures
        pieces(a + seq![','] + b) == pieces(a) + pieces(b),
    decreases b.len(),
{
    lemma_pieces_nonempty(a);
    if b.len() == 0 {
        let s = a + seq![','];
        assert(s.drop_last() =~= a);
        assert(a + seq![','] + b =~= s);
        assert(pieces(a) + pieces(b) =~= pieces(a).push(Seq::empty()));
    } else {
        let s = a + seq![','] + b;
        assert(s.drop_last() =~= a + seq![','] + b.drop_last());
        lemma_pieces_concat(a, b.drop_last());
        lemma_pieces_nonempty(b.drop_last());
        let pa = pieces(a);
        let pb = pieces(b.drop_last());
        if b.last() == ',' {
            assert(pieces(s) =~= pa + pieces(b));
        } else {
            assert((pa + pb).update((pa + pb).len() - 1, (pa + pb).last().push(b.last()))
                =~= pa + pb.update(pb.len() - 1, pb.last().push(b.last())));
        }
    }
}

/// The characters of `s`, in order.
pub fn chars_of(s: &str) -> (r: Vec<char>)
    ensures
        r@ == s@,
{
    let mut v: Vec<char> = Vec::new();
    for c in it: s.chars()
        invariant
            v@ == it.seq().take(it.index() as int),
    {
        v.push(c);
    }
    v
}

/// Whether `a` and `b[lo..hi]` hold the same characters.
pub fn same_chars(a: &Vec<char>, b: &Vec<char>, lo: usize, hi: usize) -> (r: bool)
    requires
        lo <= hi <= b@.len(),
    ensures
        r == (a@ == b@.subrange(lo as int, hi as int)),
{
    if a.len() != hi - lo {
        return false;
    }
    let mut k: usize = 0;
    while k < a.len()
        invariant
            a@.len() == hi - lo,
            lo <= hi <= b@.len(),
            k <= a@.len(),
            forall|m: int| 0 <= m < k ==> a@[m] == b@[lo + m],
        decreases a@.len() - k,
    {
        if a[k] != b[lo + k] {
            assert(a@[k as int] != b@.subrange(lo as int, hi as int)[k as int]);
            return false;
        }
        k = k + 1;
    }
    assert(a@ =~= b@.subrange(lo as int, hi as int));
    true
}

/// Whether the spelling `s` is exactly `b[lo..hi]`.
pub fn spelled_as(s: &str, b: &Vec<char>, lo: usize, hi: usize) -> (r: bool)
    requires
        lo <= hi <= b@.len(),
    ensures
        r == (s@ == b@.subrange(lo as int, hi as int)),
{
    let sc = chars_of(s);
    same_chars(&sc, b, lo, hi)
}

/// The bounds of `b[lo..hi]` with its leading and trailing white space
/// removed.
pub fn trim_bounds(b: &Vec<char>, lo: usize, hi: usize) -> (r: (usize, usize))
    requires
        lo <= hi <= b@.len(),
    ensures
        lo <= r.0 <= r.1 <= hi,
        b@.subrange(r.0 as int, r.1 as int) == trim(b@.subrange(lo as int, hi as int)),
{
    let mut a = lo;
    while a < hi && is_white_space(b[a])
        invariant
            lo <= a <= hi <= b@.len(),
            trim_start(b@.subrange(lo as int, hi as int)) == trim_start(
                b@.subrange(a as int, hi as int),
            ),
        decreases hi - a,
    {
        assert(b@.subrange(a as int, hi as int).drop_first() =~= b@.subrange(
            a + 1,
            hi as int,
        ));
        a = a + 1;
    }
    assert(trim_start(b@.subrange(a as int, hi as int)) == b@.subrange(a as int, hi as int));
    let mut z = hi;
    while z > a && is_white_space(b[z - 1])
        invariant
            lo <= a <= z <= hi <= b@.len(),
            trim(b@.subrange(lo as int, hi as int)) == trim_end(b@.subrange(a as int, z as int)),
        decreases z - a,
    {
        assert(b@.subrange(a as int, z as int).drop_last() =~= b@.subrange(
            a as int,
            z - 1,
        ));
        z = z - 1;
    }
    (a, z)
}

} // verus!
