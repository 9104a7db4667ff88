//! Applying one occurrence of a flag's value to a set of canonicals.
use vstd::prelude::*;
use vstd::string::StrSliceExecFns;

use std::collections::HashSet;

use crate::table::{resolve, resolve_chars, KnownToken, ResolvedKind};
use crate::text::{chars_of, lemma_pieces_concat, pieces, trim, trim_bounds};

verus! {

/// Returned when an input token (with any leading `-` stripped) does not
/// appear as a canonical or alias in the caller's `known` list. Holds the
/// offending spelling.
#[derive(Debug, Clone, PartialEq, Eq)]
pub struct UnknownToken(pub String);

/// The spellings that a set of `&'static str` holds.
pub uninterp spec fn held(set: HashSet<&'static str>) -> Set<Seq<char>>;

/// Calls `HashSet::new`, which creates an empty set.
#[verifier::external_body]
fn fresh_set() -> (r: HashSet<&'static str>)
    ensures
        held(r) == Set::<Seq<char>>::empty(),
{
    HashSet::new()
}

/// An empty set of canonicals, to apply occurrences to.
pub fn new_set() -> (r: HashSet<&'static str>)
    ensures
        held(r) == Set::<Seq<char>>::empty(),
{
    fresh_set()
}

/// Calls `HashSet::contains`: whether the set holds the spelling `s`.
#[verifier::external_body]
fn contains_spelling(set: &HashSet<&'static str>, s: &str) -> (r: bool)
    ensures
        r == held(*set).contains(s@),
{
    set.contains(s)
}

/// Whether the set holds the spelling `spelling`.
pub fn holds(set: &HashSet<&'static str>, spelling: &str) -> (r: bool)
    ensures
        r == held(*set).contains(spelling@),
{
    contains_spelling(set, spelling)
}

/// Calls `HashSet::insert`: afterwards the set holds `s` besides what it
/// held. (`str` equality and hashing go by content.)
#[verifier::external_body]
fn insert_spelling(set: &mut HashSet<&'static str>, s: &'static str)
    ensures
        held(*final(set)) == held(*old(set)).insert(s@),
{
    set.insert(s);
}

/// Calls `HashSet::remove`: afterwards the set holds what it held but `s`.
#[verifier::external_body]
fn remove_spelling(set: &mut HashSet<&'static str>, s: &'static str)
    ensures
        held(*final(set)) == held(*old(set)).remove(s@),
{
    set.remove(s);
}

/// A token, `-` prefix stripped, and whether it adds (no prefix) or removes.
pub open spec fn strip_dash(t: Seq<char>) -> (Seq<char>, bool) {
    if t.len() > 0 && t[0] == '-' {
        (t.drop_first(), false)
    } else {
        (t, true)
    }
}

/// Applies one comma-separated piece to the set `s`: a piece that trims to
/// nothing changes nothing; otherwise its name is resolved, and its
/// canonical inserted (or removed, with a `-` prefix). The second component
/// is the unknown name, if the piece fails.
pub open spec fn step(s: Set<Seq<char>>, piece: Seq<char>, known: Seq<KnownToken>) -> (
    Set<Seq<char>>,
    Option<Seq<char>>,
) {
    let t = trim(piece);
    if t.len() == 0 {
        (s, None)
    } else {
        let (name, add) = strip_dash(t);
        match resolve(name, known) {
            None => (s, Some(name)),
            Some(r) => if add {
                (s.insert(r.canonical@), None)
            } else {
                (s.remove(r.canonical@), None)
            },
        }
    }
}

/// Applies the pieces left to right, stopping at the first that fails; the
/// set is then the one that the pieces before it left.
pub open spec fn run(s: Set<Seq<char>>, ps: Seq<Seq<char>>, known: Seq<KnownToken>) -> (
    Set<Seq<char>>,
    Option<Seq<char>>,
)
    decreases ps.len(),
{
    if ps.len() == 0 {
        (s, None)
    } else {
        let prev = run(s, ps.drop_last(), known);
        if prev.1 is Some {
            prev
        } else {
            step(prev.0, ps.last(), known)
        }
    }
}

/// What applying the flag value `input` to the set `s` gives: the new set,
/// and the unknown name where it fails.
pub open spec fn outcome(s: Set<Seq<char>>, input: Seq<char>, known: Seq<KnownToken>) -> (
    Set<Seq<char>>,
    Option<Seq<char>>,
) {
    run(s, pieces(input), known)
}

/// The name that a piece gives: trimmed, with one leading `-` stripped.
pub open spec fn name_of(piece: Seq<char>) -> Seq<char> {
    strip_dash(trim(piece)).0
}

/// A piece that is not blank and whose name resolves to nothing.
pub open spec fn unknown_piece(piece: Seq<char>, known: Seq<KnownToken>) -> bool {
    trim(piece).len() > 0 && resolve(name_of(piece), known) is None
}

/// Some piece of `ps` is unknown: application stops there.
pub open spec fn halted(ps: Seq<Seq<char>>, known: Seq<KnownToken>) -> bool
    decreases ps.len(),
{
    ps.len() > 0 && (halted(ps.drop_last(), known) || unknown_piece(ps.last(), known))
}

/// The deprecation call that a piece causes, if any: its name and the
/// canonical it resolves to, when it resolves through a deprecated alias.
pub open spec fn piece_deprecation(piece: Seq<char>, known: Seq<KnownToken>) -> Seq<
    (Seq<char>, &'static str),
> {
    if trim(piece).len() > 0 {
        match resolve(name_of(piece), known) {
            Some(r) => if r.kind == ResolvedKind::Deprecated {
                seq![(name_of(piece), r.canonical)]
            } else {
                Seq::empty()
            },
            None => Seq::empty(),
        }
    } else {
        Seq::empty()
    }
}

/// The deprecation calls of the pieces `ps`, in order, up to the first
/// unknown piece.
pub open spec fn events(ps: Seq<Seq<char>>, known: Seq<KnownToken>) -> Seq<(Seq<char>, &'static str)>
    decreases ps.len(),
{
    if ps.len() == 0 {
        Seq::empty()
    } else if halted(ps.drop_last(), known) {
        events(ps.drop_last(), known)
    } else {
        events(ps.drop_last(), known) + piece_deprecation(ps.last(), known)
    }
}

/// The deprecation calls that applying the flag value `input` makes, in
/// order: one per token resolving through a deprecated alias, with the
/// token's spelling (`-` stripped) and its canonical, none at or after the
/// first unknown name.
pub open spec fn deprecations(input: Seq<char>, known: Seq<KnownToken>) -> Seq<
    (Seq<char>, &'static str),
> {
    events(pieces(input), known)
}

/// The callback `f` accepts the calls listed in `d`.
pub open spec fn accepts<F: FnMut(&str, &'static str)>(f: F, d: Seq<(Seq<char>, &'static str)>) -> bool {
    forall|a: &str, k: int|
        0 <= k < d.len() && a@ == d[k].0 ==> #[trigger] call_requires(f, (a, d[k].1))
}

/// The callback `f` was called with a spelling `a` such that `a@ == name`,
/// and the canonical `canonical`.
pub open spec fn called_with<F: FnMut(&str, &'static str)>(
    f: F,
    name: Seq<char>,
    canonical: &'static str,
) -> bool {
    exists|a: &str| a@ == name && #[trigger] call_ensures(f, (a, canonical), ())
}

/// The callback `f` was called with each pair of `d`, the spelling as a
/// `&str`.
pub open spec fn called<F: FnMut(&str, &'static str)>(f: F, d: Seq<(Seq<char>, &'static str)>) -> bool {
    forall|k: int| 0 <= k < d.len() ==> called_with(f, #[trigger] d[k].0, d[k].1)
}

proof fn lemma_called_concat<F: FnMut(&str, &'static str)>(
    f: F,
    x: Seq<(Seq<char>, &'static str)>,
    y: Seq<(Seq<char>, &'static str)>,
)
    requires
        called(f, x),
        called(f, y),
    ensures
        called(f, x + y),
{
    let xy = x + y;
    assert forall|k: int| 0 <= k < xy.len() implies called_with(f, #[trigger] xy[k].0, xy[k].1) by {
        if k < x.len() {
            assert(xy[k] == x[k]);
        } else {
            assert(xy[k] == y[k - x.len()]);
        }
    }
}

proof fn lemma_accepts_part<F: FnMut(&str, &'static str)>(
    f: F,
    d: Seq<(Seq<char>, &'static str)>,
    off: int,
    part: Seq<(Seq<char>, &'static str)>,
)
    requires
        accepts(f, d),
        0 <= off,
        off + part.len() <= d.len(),
        part =~= d.subrange(off, off + part.len()),
    ensures
        accepts(f, part),
{
    assert forall|a: &str, k: int| 0 <= k < part.len() && a@ == part[k].0 implies #[trigger] call_requires(
        f,
        (a, part[k].1),
    ) by {
        assert(part[k] == d[off + k]);
        assert(call_requires(f, (a, d[off + k].1)));
    }
}

/// Running pieces fails exactly when one of them is unknown.
pub(crate) proof fn lemma_run_halted(s: Set<Seq<char>>, ps: Seq<Seq<char>>, known: Seq<KnownToken>)
    ensures
        run(s, ps, known).1 is Some <==> halted(ps, known),
    decreases ps.len(),
{
    if ps.len() > 0 {
        lemma_run_halted(s, ps.drop_last(), known);
    }
}

/// Running `ps + qs` is running `ps`, then `qs` unless `ps` already fails.
pub(crate) proof fn lemma_run_concat(
    s: Set<Seq<char>>,
    ps: Seq<Seq<char>>,
    qs: Seq<Seq<char>>,
    known: Seq<KnownToken>,
)
    ensures
        run(s, ps + qs, known) == (if run(s, ps, known).1 is Some {
            run(s, ps, known)
        } else {
            run(run(s, ps, known).0, qs, known)
        }),
    decreases qs.len(),
{
    if qs.len() == 0 {
        assert(ps + qs =~= ps);
    } else {
        lemma_run_concat(s, ps, qs.drop_last(), known);
        assert((ps + qs).drop_last() =~= ps + qs.drop_last());
    }
}

/// The calls of `ps + qs` are those of `ps`, then those of `qs` unless `ps`
/// already stops.
pub(crate) proof fn lemma_events_concat(ps: Seq<Seq<char>>, qs: Seq<Seq<char>>, known: Seq<KnownToken>)
    ensures
        halted(ps + qs, known) == (halted(ps, known) || halted(qs, known)),
        events(ps + qs, known) == (if halted(ps, known) {
            events(ps, known)
        } else {
            events(ps, known) + events(qs, known)
        }),
    decreases qs.len(),
{
    if qs.len() == 0 {
        assert(ps + qs =~= ps);
        assert(events(ps, known) + events(qs, known) =~= events(ps, known));
    } else {
        lemma_events_concat(ps, qs.drop_last(), known);
        assert((ps + qs).drop_last() =~= ps + qs.drop_last());
        assert((ps + qs).last() == qs.last());
        if !halted(ps, known) && !halted(qs.drop_last(), known) {
            assert(events(ps, known) + events(qs.drop_last(), known) + piece_deprecation(qs.last(), known)
                =~= events(ps, known) + (events(qs.drop_last(), known) + piece_deprecation(qs.last(), known)));
        }
    }
}

fn apply_piece<F: FnMut(&str, &'static str)>(
    input: &str,
    b: &Vec<char>,
    lo: usize,
    hi: usize,
    known: &[KnownToken],
    set: &mut HashSet<&'static str>,
    on_deprecated: &mut F,
) -> (r: Result<(), UnknownToken>)
    requires
        lo <= hi <= b@.len(),
        b@ == input@,
        accepts(*old(on_deprecated), piece_deprecation(b@.subrange(lo as int, hi as int), known@)),
    ensures
        *final(on_deprecated) == *old(on_deprecated),
        called(*final(on_deprecated), piece_deprecation(b@.subrange(lo as int, hi as int), known@)),
        held(*final(set)) == step(held(*old(set)), b@.subrange(lo as int, hi as int), known@).0,
        r is Ok <==> step(held(*old(set)), b@.subrange(lo as int, hi as int), known@).1 is None,
        r matches Err(u) ==> step(
            held(*old(set)),
            b@.subrange(lo as int, hi as int),
            known@,
        ).1 == Some(u.0@),
{
    let ghost piece = b@.subrange(lo as int, hi as int);
    let (a, z) = trim_bounds(b, lo, hi);
    if a == z {
        return Ok(());
    }
    let ghost t = b@.subrange(a as int, z as int);
    assert(t[0] == b@[a as int]);
    let add = b[a] != '-';
    let nlo = if add {
        a
    } else {
        a + 1
    };
    assert(t.drop_first() =~= b@.subrange(a + 1, z as int));
    assert(strip_dash(t) == (b@.subrange(nlo as int, z as int), add));
    assert(name_of(piece) == b@.subrange(nlo as int, z as int));
    match resolve_chars(b, nlo, z, known) {
        None => {
            let name = input.substring_char(nlo, z);
            Err(UnknownToken(name.to_owned()))
        },
        Some(res) => {
            match res.kind {
                ResolvedKind::Deprecated => {
                    let name = input.substring_char(nlo, z);
                    let ghost d = piece_deprecation(piece, known@);
                    assert(d[0] == (name@, res.canonical));
                    assert(call_requires(*on_deprecated, (name, d[0].1)));
                    on_deprecated(name, res.canonical);
                    assert(*on_deprecated == *old(on_deprecated));
                    assert(call_ensures(*on_deprecated, (name, res.canonical), ()));
                    assert(called_with(*on_deprecated, d[0].0, d[0].1));
                    assert(called(*on_deprecated, d));
                },
                _ => {},
            }
            if add {
                insert_spelling(set, res.canonical);
            } else {
                remove_spelling(set, res.canonical);
            }
            Ok(())
        },
    }
}

/// Like [`apply`], but invokes `on_deprecated(input_spelling, canonical)`
/// each time an input token resolves through a deprecated alias: in order,
/// with the token's spelling (`-` stripped) and its canonical, and never at
/// or after the first unknown name. The callback is asked to accept exactly
/// these calls, so no other call can be made.
pub fn apply_with_callback<F: FnMut(&str, &'static str)>(
    input: &str,
    known: &[KnownToken],
    set: &mut HashSet<&'static str>,
    on_deprecated: F,
) -> (r: Result<(), UnknownToken>)
    requires
        accepts(on_deprecated, deprecations(input@, known@)),
    ensures
        held(*final(set)) == outcome(held(*old(set)), input@, known@).0,
        r is Ok <==> outcome(held(*old(set)), input@, known@).1 is None,
        r matches Err(u) ==> outcome(held(*old(set)), input@, known@).1 == Some(u.0@),
        called(on_deprecated, deprecations(input@, known@)),
{
    let ghost f0 = on_deprecated;
    let mut cb = on_deprecated;
    let b = chars_of(input);
    let n = b.len();
    let ghost s0 = held(*set);
    let ghost dall = deprecations(input@, known@);
    let ghost mut done: Seq<Seq<char>> = Seq::empty();
    let mut start: usize = 0;
    let mut i: usize = 0;
    assert(b@.take(0) =~= Seq::<char>::empty());
    assert(b@.subrange(0, 0) =~= Seq::<char>::empty());
    assert(done.push(b@.subrange(0, 0)) =~= seq![Seq::<char>::empty()]);
    while i < n
        invariant
            start <= i <= n,
            n == b@.len(),
            b@ == input@,
            cb == f0,
            f0 == on_deprecated,
            dall == deprecations(input@, known@),
            accepts(f0, dall),
            s0 == held(*old(set)),
            pieces(b@.take(i as int)) == done.push(b@.subrange(start as int, i as int)),
            run(s0, done, known@).1 is None,
            !halted(done, known@),
            held(*set) == run(s0, done, known@).0,
            called(f0, events(done, known@)),
            events(done, known@).len() <= dall.len(),
            events(done, known@) =~= dall.subrange(0, events(done, known@).len() as int),
        decreases n - i,
    {
        let ghost p = done.push(b@.subrange(start as int, i as int));
        assert(b@.take(i + 1).drop_last() =~= b@.take(i as int));
        assert(b@.take(i + 1).last() == b@[i as int]);
        if b[i] == ',' {
            let ghost piece = b@.subrange(start as int, i as int);
            let ghost pd = piece_deprecation(piece, known@);
            let ghost ed = events(done, known@);
            proof {
                assert(b@ =~= b@.take(i as int) + seq![','] + b@.skip(i + 1));
                lemma_pieces_concat(b@.take(i as int), b@.skip(i + 1));
                lemma_events_concat(p, pieces(b@.skip(i + 1)), known@);
                assert(p.drop_last() =~= done);
                assert(p.last() == piece);
                assert(events(p, known@) == ed + pd);
                assert(dall.subrange(0, (ed + pd).len() as int) =~= ed + pd);
                lemma_accepts_part(f0, dall, ed.len() as int, pd);
            }
            let res = apply_piece(input, &b, start, i, known, set, &mut cb);
            assert(run(s0, p, known@) == step(run(s0, done, known@).0, piece, known@));
            proof {
                lemma_run_halted(s0, p, known@);
                let ghost ep = events(p, known@);
                lemma_called_concat(f0, ed, pd);
                assert(called(f0, ep));
            }
            match res {
                Err(u) => {
                    proof {
                        lemma_run_concat(s0, p, pieces(b@.skip(i + 1)), known@);
                        assert(halted(p, known@));
                        assert(dall == events(p, known@));
                    }
                    return Err(u);
                },
                Ok(()) => {},
            }
            proof {
                done = p;
            }
            start = i + 1;
            assert(b@.subrange(start as int, i + 1) =~= Seq::<char>::empty());
            assert(pieces(b@.take(i + 1)) =~= done.push(b@.subrange(start as int, i + 1)));
        } else {
            assert(b@.subrange(start as int, i as int).push(b@[i as int]) =~= b@.subrange(
                start as int,
                i + 1,
            ));
            assert(pieces(b@.take(i + 1)) =~= done.push(b@.subrange(start as int, i + 1)));
        }
        i = i + 1;
    }
    assert(b@.take(n as int) =~= b@);
    let ghost all = done.push(b@.subrange(start as int, n as int));
    let ghost piece = b@.subrange(start as int, n as int);
    let ghost pd = piece_deprecation(piece, known@);
    let ghost ed = events(done, known@);
    assert(all.drop_last() =~= done);
    assert(all.last() == piece);
    assert(dall == ed + pd);
    proof {
        lemma_accepts_part(f0, dall, ed.len() as int, pd);
    }
    let r = apply_piece(input, &b, start, n, known, set, &mut cb);
    proof {
        lemma_called_concat(f0, ed, pd);
        assert(called(f0, dall));
    }
    r
}

/// Apply one occurrence of a set flag's value to `set`.
///
/// `input` is split on `,`; pieces are trimmed; empty ones are skipped. A
/// `-` prefix removes the named entry; otherwise it is inserted. What goes
/// in or out is always the canonical spelling from `known`. On an unknown
/// name, returns it (after stripping any `-`); the set keeps what the
/// earlier tokens did to it.
pub fn apply(input: &str, known: &[KnownToken], set: &mut HashSet<&'static str>) -> (r: Result<
    (),
    UnknownToken,
>)
    ensures
        held(*final(set)) == outcome(held(*old(set)), input@, known@).0,
        r is Ok <==> outcome(held(*old(set)), input@, known@).1 is None,
        r matches Err(u) ==> outcome(held(*old(set)), input@, known@).1 == Some(u.0@),
{
    apply_with_callback(input, known, set, ignore_deprecation)
}

/// A deprecation callback that does nothing.
fn ignore_deprecation(_spelling: &str, _canonical: &'static str) {
}

/// The deprecation calls for a value read from the environment: none when
/// there is no value.
pub open spec fn env_deprecations(value: Option<&str>, known: Seq<KnownToken>) -> Seq<
    (Seq<char>, &'static str),
> {
    match value {
        Some(v) => deprecations(v@, known),
        None => Seq::empty(),
    }
}

/// Applies a flag value read from the environment, as a leading occurrence
/// of the flag: no value (unset, or not valid UTF-8) changes nothing and
/// calls nothing; otherwise the value is applied as [`apply_with_callback`]
/// does, with the same calls of `on_deprecated`.
pub fn apply_env_value<F: FnMut(&str, &'static str)>(
    value: Option<&str>,
    known: &[KnownToken],
    set: &mut HashSet<&'static str>,
    on_deprecated: F,
) -> (r: Result<(), UnknownToken>)
    requires
        accepts(on_deprecated, env_deprecations(value, known@)),
    ensures
        value is None ==> held(*final(set)) == held(*old(set)) && r is Ok,
        value matches Some(v) ==> {
            &&& held(*final(set)) == outcome(held(*old(set)), v@, known@).0
            &&& r is Ok <==> outcome(held(*old(set)), v@, known@).1 is None
            &&& r matches Err(u) ==> outcome(held(*old(set)), v@, known@).1 == Some(u.0@)
        },
        called(on_deprecated, env_deprecations(value, known@)),
{
    match value {
        None => Ok(()),
        Some(v) => apply_with_callback(v, known, set, on_deprecated),
    }
}

} // verus!
