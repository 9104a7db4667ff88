//! Properties of the library as a whole, stated over the specifications
//! that the functions' contracts use.
use vstd::prelude::*;

use crate::apply::{
    deprecations, lemma_events_concat, lemma_run_concat, lemma_run_halted, outcome, run,
    step, strip_dash,
};
use crate::text::{lemma_pieces_concat, pieces, trim};
use crate::table::{
    alias_status, bad_at, entries, kind_of, lemma_entries_prefix, lemma_entries_step, token_match, resolve, table_valid, token_entries, Alias, Entry,
    KnownToken, Resolved, ResolvedKind,
};

verus! {

/// The spellings of a table are those of its first token followed by those
/// of the rest.
proof fn lemma_entries_first(known: Seq<KnownToken>)
    requires
        known.len() > 0,
    ensures
        entries(known) == token_entries(known[0]) + entries(known.drop_first()),
    decreases known.len(),
{
    if known.len() == 1 {
        assert(known.drop_last() =~= Seq::<KnownToken>::empty());
        assert(known.drop_first() =~= Seq::<KnownToken>::empty());
        assert(entries(known.drop_last()) =~= Seq::<Entry>::empty());
        assert(known.last() == known[0]);
        assert(entries(known) =~= token_entries(known[0]));
        assert(entries(known.drop_first()) =~= Seq::<Entry>::empty());
        assert(token_entries(known[0]) + Seq::<Entry>::empty() =~= token_entries(known[0]));
    } else {
        let d = known.drop_last();
        lemma_entries_first(d);
        assert(d[0] == known[0]);
        assert(known.drop_first().drop_last() =~= d.drop_first());
        assert(known.drop_first().last() == known.last());
        assert(entries(known) =~= token_entries(known[0]) + entries(known.drop_first()));
    }
}

/// Validity passes to the rest of the table, and no spelling of the first
/// token occurs in the rest.
proof fn lemma_valid_first(known: Seq<KnownToken>)
    requires
        known.len() > 0,
        table_valid(known),
    ensures
        table_valid(known.drop_first()),
        forall|p: int, q: int|
            0 <= p < token_entries(known[0]).len() && 0 <= q < entries(known.drop_first()).len()
                ==> (#[trigger] token_entries(known[0])[p]).0@ != (#[trigger] entries(
                known.drop_first(),
            )[q]).0@,
{
    lemma_entries_first(known);
    let es = entries(known);
    let t = token_entries(known[0]);
    let er = entries(known.drop_first());
    let m = t.len() as int;
    assert forall|q: int| 0 <= q < er.len() implies !#[trigger] bad_at(er, q) by {
        assert(es[m + q] == er[q]);
        assert(!bad_at(es, m + q));
        if er[q].0@.len() == 0 {
        } else if exists|j: int| 0 <= j < q && er[j].0@ == #[trigger] er[q].0@ {
            let j = choose|j: int| 0 <= j < q && er[j].0@ == #[trigger] er[q].0@;
            assert(es[m + j] == er[j]);
            assert(es[m + j].0@ == es[m + q].0@);
        }
    }
    assert forall|p: int, q: int| 0 <= p < t.len() && 0 <= q < er.len() implies (
    #[trigger] t[p]).0@ != (#[trigger] er[q]).0@ by {
        assert(es[p] == t[p]);
        assert(es[m + q] == er[q]);
        assert(!bad_at(es, m + q));
    }
}

/// Within one token, no two spellings coincide in a valid table.
proof fn lemma_valid_token(known: Seq<KnownToken>)
    requires
        known.len() > 0,
        table_valid(known),
    ensures
        forall|p: int, q: int|
            0 <= p < q < token_entries(known[0]).len() ==> (#[trigger] token_entries(
                known[0],
            )[p]).0@ != (#[trigger] token_entries(known[0])[q]).0@,
{
    lemma_entries_first(known);
    let es = entries(known);
    let t = token_entries(known[0]);
    assert forall|p: int, q: int| 0 <= p < q < t.len() implies (#[trigger] t[p]).0@ != (
    #[trigger] t[q]).0@ by {
        assert(es[p] == t[p]);
        assert(es[q] == t[q]);
        assert(!bad_at(es, q));
    }
}

/// The first alias spelled like alias `j`, when no earlier alias is, is `j`.
proof fn lemma_alias_status_at(al: Seq<Alias>, j: int)
    requires
        0 <= j < al.len(),
        forall|k: int| 0 <= k < j ==> (#[trigger] al[k]).spelling@ != al[j].spelling@,
    ensures
        alias_status(al[j].spelling@, al) == Some(al[j].status),
    decreases j,
{
    if j > 0 {
        let d = al.drop_first();
        assert(al[0].spelling@ != al[j].spelling@);
        assert(d[j - 1] == al[j]);
        assert forall|k: int| 0 <= k < j - 1 implies (#[trigger] d[k]).spelling@ != d[j
            - 1].spelling@ by {
            assert(d[k] == al[k + 1]);
        }
        lemma_alias_status_at(d, j - 1);
    }
}

/// No alias spelled `x` gives no alias status.
proof fn lemma_alias_status_none(x: Seq<char>, al: Seq<Alias>)
    requires
        forall|k: int| 0 <= k < al.len() ==> (#[trigger] al[k]).spelling@ != x,
    ensures
        alias_status(x, al) is None,
    decreases al.len(),
{
    if al.len() > 0 {
        let d = al.drop_first();
        assert forall|k: int| 0 <= k < d.len() implies (#[trigger] d[k]).spelling@ != x by {
            assert(d[k] == al[k + 1]);
        }
        lemma_alias_status_none(x, d);
    }
}

/// The spellings of token `i` stand in the flat list at its offset.
proof fn lemma_token_at(known: Seq<KnownToken>, i: int)
    requires
        0 <= i < known.len(),
    ensures
        ({
            let off = entries(known.take(i)).len() as int;
            &&& off + token_entries(known[i]).len() <= entries(known).len()
            &&& forall|p: int|
                0 <= p < token_entries(known[i]).len() ==> entries(known)[off + p]
                    == #[trigger] token_entries(known[i])[p]
        }),
    decreases known.len() - i,
{
    let off = entries(known.take(i)).len() as int;
    assert(known.take(i + 1).drop_last() =~= known.take(i));
    let e1 = entries(known.take(i + 1));
    assert(e1 == entries(known.take(i)) + token_entries(known[i]));
    lemma_entries_prefix(known, i + 1);
    assert forall|p: int| 0 <= p < token_entries(known[i]).len() implies entries(known)[off + p]
        == #[trigger] token_entries(known[i])[p] by {
        assert(entries(known).take(e1.len() as int)[off + p] == entries(known)[off + p]);
        assert(e1[off + p] == token_entries(known[i])[p]);
    }
}

/// Lookup in a valid table: the canonical spelling of token `i` resolves to
/// token `i` as a canonical match, and each of its aliases resolves to token
/// `i` with the kind that the alias's status gives, whatever the order of
/// the table.
pub proof fn law_valid_table_lookup(known: Seq<KnownToken>, i: int)
    requires
        table_valid(known),
        0 <= i < known.len(),
    ensures
        resolve(known[i].canonical@, known) == Some(
            Resolved { canonical: known[i].canonical, kind: ResolvedKind::Canonical },
        ),
        forall|j: int|
            0 <= j < known[i].aliases@.len() ==> resolve(
                (#[trigger] known[i].aliases@[j]).spelling@,
                known,
            ) == Some(
                Resolved {
                    canonical: known[i].canonical,
                    kind: kind_of(known[i].aliases@[j].status),
                },
            ),
    decreases i,
{
    let k0 = known[0];
    let t = token_entries(k0);
    assert(t[0] == (k0.canonical, k0.canonical, false));
    assert forall|j: int| 0 <= j < k0.aliases@.len() implies #[trigger] t[1 + j] == (
    k0.aliases@[j].spelling, k0.canonical, true) by {}
    if i == 0 {
        lemma_valid_token(known);
        assert forall|j: int| 0 <= j < k0.aliases@.len() implies resolve(
            (#[trigger] k0.aliases@[j]).spelling@,
            known,
        ) == Some(Resolved { canonical: k0.canonical, kind: kind_of(k0.aliases@[j].status) }) by {
            let al = k0.aliases@;
            assert(t[1 + j] == (al[j].spelling, k0.canonical, true));
            assert(t[0].0@ != t[1 + j].0@);
            assert forall|k: int| 0 <= k < j implies (#[trigger] al[k]).spelling@
                != al[j].spelling@ by {
                assert(t[1 + k] == (al[k].spelling, k0.canonical, true));
                assert(t[1 + k].0@ != t[1 + j].0@);
            }
            lemma_alias_status_at(al, j);
        }
    } else {
        let rest = known.drop_first();
        lemma_valid_first(known);
        law_valid_table_lookup(rest, i - 1);
        assert(rest[i - 1] == known[i]);
        lemma_token_at(rest, i - 1);
        let off = entries(rest.take(i - 1)).len() as int;
        let ti = token_entries(known[i]);
        let er = entries(rest);
        assert(ti[0] == (known[i].canonical, known[i].canonical, false));
        // A spelling of token `i` is no spelling of the first token.
        assert forall|p: int| 0 <= p < ti.len() implies ({
            let x = (#[trigger] ti[p]).0@;
            &&& k0.canonical@ != x
            &&& alias_status(x, k0.aliases@) is None
        }) by {
            let x = ti[p].0@;
            assert(er[off + p] == ti[p]);
            assert(t[0].0@ != er[off + p].0@);
            assert forall|k: int| 0 <= k < k0.aliases@.len() implies (
            #[trigger] k0.aliases@[k]).spelling@ != x by {
                assert(t[1 + k].0@ != er[off + p].0@);
            }
            lemma_alias_status_none(x, k0.aliases@);
        }
        assert(ti[0].0@ == known[i].canonical@);
        assert forall|j: int| 0 <= j < known[i].aliases@.len() implies resolve(
            (#[trigger] known[i].aliases@[j]).spelling@,
            known,
        ) == Some(
            Resolved {
                canonical: known[i].canonical,
                kind: kind_of(known[i].aliases@[j].status),
            },
        ) by {
            assert(ti[1 + j] == (known[i].aliases@[j].spelling, known[i].canonical, true));
            assert(rest[i - 1].aliases@[j] == known[i].aliases@[j]);
        }
    }
}

/// In a valid table every spelling of a token acts on that token's
/// canonical: a piece that trims to the spelling inserts the canonical, and
/// a piece that trims to `-` and the spelling removes it.
pub proof fn law_spelling_acts_on_canonical(
    known: Seq<KnownToken>,
    i: int,
    j: int,
    s: Set<Seq<char>>,
    piece: Seq<char>,
)
    requires
        table_valid(known),
        0 <= i < known.len(),
        -1 <= j < known[i].aliases@.len(),
    ensures
        ({
            let x = if j < 0 {
                known[i].canonical@
            } else {
                known[i].aliases@[j].spelling@
            };
            let c = known[i].canonical@;
            &&& (trim(piece) == x && x[0] != '-') ==> step(s, piece, known) == (s.insert(c), None::<Seq<char>>)
            &&& trim(piece) == seq!['-'] + x ==> step(s, piece, known) == (s.remove(c), None::<Seq<char>>)
        }),
{
    law_valid_table_lookup(known, i);
    let x = if j < 0 {
        known[i].canonical@
    } else {
        known[i].aliases@[j].spelling@
    };
    lemma_token_at(known, i);
    let off = entries(known.take(i)).len() as int;
    let t = token_entries(known[i]);
    if j >= 0 {
        assert(resolve(known[i].aliases@[j].spelling@, known) is Some);
        assert(t[1 + j] == (known[i].aliases@[j].spelling, known[i].canonical, true));
        assert(entries(known)[off + 1 + j] == t[1 + j]);
        assert(!bad_at(entries(known), off + 1 + j));
    } else {
        assert(t[0] == (known[i].canonical, known[i].canonical, false));
        assert(entries(known)[off] == t[0]);
        assert(!bad_at(entries(known), off));
    }
    assert(x.len() > 0);
    if trim(piece) == seq!['-'] + x {
        assert((seq!['-'] + x).drop_first() =~= x);
        assert(strip_dash(trim(piece)) == (x, false));
    }
}

/// One occurrence `a,b` has the effect of the occurrence `a` followed by
/// the occurrence `b`: tokens apply left to right, within an occurrence as
/// across occurrences, and an error stops the application where it occurs.
/// The deprecation calls are likewise those of `a`, then, unless `a`
/// fails, those of `b`.
pub proof fn law_occurrences_compose(
    s: Set<Seq<char>>,
    a: Seq<char>,
    b: Seq<char>,
    known: Seq<KnownToken>,
)
    ensures
        outcome(s, a + seq![','] + b, known) == (if outcome(s, a, known).1 is Some {
            outcome(s, a, known)
        } else {
            outcome(outcome(s, a, known).0, b, known)
        }),
        deprecations(a + seq![','] + b, known) == (if outcome(s, a, known).1 is Some {
            deprecations(a, known)
        } else {
            deprecations(a, known) + deprecations(b, known)
        }),
{
    lemma_pieces_concat(a, b);
    lemma_run_concat(s, pieces(a), pieces(b), known);
    lemma_events_concat(pieces(a), pieces(b), known);
    lemma_run_halted(s, pieces(a), known);
}

/// Applying a value again after it succeeded changes nothing: the second
/// application succeeds and leaves the set as the first one left it (and,
/// `deprecations` being a function of the value and the table alone, it
/// makes the same deprecation calls).
pub proof fn law_apply_twice(s: Set<Seq<char>>, input: Seq<char>, known: Seq<KnownToken>)
    requires
        outcome(s, input, known).1 is None,
    ensures
        outcome(outcome(s, input, known).0, input, known) == outcome(s, input, known),
{
    let s1 = outcome(s, input, known).0;
    lemma_run_halted(s, pieces(input), known);
    lemma_run_halted(s1, pieces(input), known);
    let s2 = outcome(s1, input, known).0;
    assert forall|c: Seq<char>| s2.contains(c) == s1.contains(c) by {
        lemma_run_last_touch(s, pieces(input), known, c);
        lemma_run_last_touch(s1, pieces(input), known, c);
    }
    assert(s2 =~= s1);
}

/// The canonical spellings of a table.
pub open spec fn canonicals(known: Seq<KnownToken>) -> Set<Seq<char>> {
    Set::new(|x: Seq<char>| exists|i: int| 0 <= i < known.len() && (#[trigger] known[i]).canonical@ == x)
}

/// Whatever spelling a name resolves through, the result names one of the
/// table's canonical spellings.
pub proof fn law_resolves_to_a_canonical(name: Seq<char>, known: Seq<KnownToken>)
    ensures
        resolve(name, known) matches Some(r) ==> canonicals(known).contains(r.canonical@),
    decreases known.len(),
{
    if known.len() > 0 {
        law_resolves_to_a_canonical(name, known.drop_first());
        match resolve(name, known) {
            Some(r) => {
                if r.canonical == known[0].canonical {
                    assert(known[0].canonical@ == r.canonical@);
                } else {
                    let i = choose|i: int|
                        0 <= i < known.drop_first().len() && (#[trigger] known.drop_first()[i]).canonical@
                            == r.canonical@;
                    assert(known[i + 1] == known.drop_first()[i]);
                }
            },
            None => {},
        }
    }
}

/// Only canonicals enter the set: if the set held only canonical spellings
/// of the table before an occurrence is applied, it holds only canonical
/// spellings after, whether the application succeeds or fails.
pub proof fn law_only_canonicals(s: Set<Seq<char>>, input: Seq<char>, known: Seq<KnownToken>)
    requires
        s.subset_of(canonicals(known)),
    ensures
        outcome(s, input, known).0.subset_of(canonicals(known)),
{
    lemma_run_canonicals(s, pieces(input), known);
}

proof fn lemma_run_canonicals(s: Set<Seq<char>>, ps: Seq<Seq<char>>, known: Seq<KnownToken>)
    requires
        s.subset_of(canonicals(known)),
    ensures
        run(s, ps, known).0.subset_of(canonicals(known)),
    decreases ps.len(),
{
    if ps.len() > 0 {
        lemma_run_canonicals(s, ps.drop_last(), known);
        let t = trim(ps.last());
        law_resolves_to_a_canonical(strip_dash(t).0, known);
    }
}

/// How the piece `piece` touches the canonical `c`: `Some(true)` if it
/// inserts it, `Some(false)` if it removes it, `None` if it leaves it be.
pub open spec fn touch(piece: Seq<char>, c: Seq<char>, known: Seq<KnownToken>) -> Option<bool> {
    let t = trim(piece);
    if t.len() == 0 {
        None
    } else {
        match resolve(strip_dash(t).0, known) {
            Some(r) => if r.canonical@ == c {
                Some(strip_dash(t).1)
            } else {
                None
            },
            None => None,
        }
    }
}

/// The last piece of `ps` that touches `c`, and how.
pub open spec fn last_touch(ps: Seq<Seq<char>>, c: Seq<char>, known: Seq<KnownToken>) -> Option<
    bool,
>
    decreases ps.len(),
{
    if ps.len() == 0 {
        None
    } else {
        match touch(ps.last(), c, known) {
            Some(add) => Some(add),
            None => last_touch(ps.drop_last(), c, known),
        }
    }
}

/// The last word wins: after a successful occurrence, a canonical is in
/// the set exactly when the last token naming it (by any spelling) added
/// it, or, if no token names it, when it was there before.
pub proof fn law_last_token_wins(
    s: Set<Seq<char>>,
    input: Seq<char>,
    known: Seq<KnownToken>,
    c: Seq<char>,
)
    requires
        outcome(s, input, known).1 is None,
    ensures
        outcome(s, input, known).0.contains(c) == match last_touch(pieces(input), c, known) {
            Some(add) => add,
            None => s.contains(c),
        },
{
    lemma_run_last_touch(s, pieces(input), known, c);
}

proof fn lemma_run_last_touch(
    s: Set<Seq<char>>,
    ps: Seq<Seq<char>>,
    known: Seq<KnownToken>,
    c: Seq<char>,
)
    requires
        run(s, ps, known).1 is None,
    ensures
        run(s, ps, known).0.contains(c) == match last_touch(ps, c, known) {
            Some(add) => add,
            None => s.contains(c),
        },
    decreases ps.len(),
{
    if ps.len() > 0 {
        lemma_run_last_touch(s, ps.drop_last(), known, c);
    }
}

/// A value whose comma-separated pieces are all blank (empty or white
/// space only), such as the empty string, changes nothing and succeeds.
pub proof fn law_blank_input_changes_nothing(
    s: Set<Seq<char>>,
    input: Seq<char>,
    known: Seq<KnownToken>,
)
    requires
        forall|k: int| 0 <= k < pieces(input).len() ==> trim(#[trigger] pieces(input)[k]).len() == 0,
    ensures
        outcome(s, input, known) == (s, None::<Seq<char>>),
{
    lemma_run_blank(s, pieces(input), known);
}

proof fn lemma_run_blank(s: Set<Seq<char>>, ps: Seq<Seq<char>>, known: Seq<KnownToken>)
    requires
        forall|k: int| 0 <= k < ps.len() ==> trim(#[trigger] ps[k]).len() == 0,
    ensures
        run(s, ps, known) == (s, None::<Seq<char>>),
    decreases ps.len(),
{
    if ps.len() > 0 {
        let d = ps.drop_last();
        assert forall|k: int| 0 <= k < d.len() implies trim(#[trigger] d[k]).len() == 0 by {
            assert(d[k] == ps[k]);
        }
        lemma_run_blank(s, d, known);
        assert(trim(ps[ps.len() - 1]).len() == 0);
    }
}

/// Some alias in `al` is spelled `x` when the alias lookup finds one.
proof fn lemma_alias_status_some(x: Seq<char>, al: Seq<Alias>)
    requires
        alias_status(x, al) is Some,
    ensures
        exists|j: int| 0 <= j < al.len() && (#[trigger] al[j]).spelling@ == x,
    decreases al.len(),
{
    if al[0].spelling@ != x {
        lemma_alias_status_some(x, al.drop_first());
        let j = choose|j: int| 0 <= j < al.drop_first().len() && (#[trigger] al.drop_first()[j]).spelling@ == x;
        assert(al[j + 1] == al.drop_first()[j]);
    }
}

/// A token that matches `x` has a spelling equal to `x`.
proof fn lemma_match_entry(kt: KnownToken, x: Seq<char>)
    requires
        token_match(kt, x) is Some,
    ensures
        exists|p: int| 0 <= p < token_entries(kt).len() && (#[trigger] token_entries(kt)[p]).0@ == x,
{
    let t = token_entries(kt);
    if kt.canonical@ == x {
        assert(t[0].0@ == x);
    } else {
        lemma_alias_status_some(x, kt.aliases@);
        let j = choose|j: int| 0 <= j < kt.aliases@.len() && (#[trigger] kt.aliases@[j]).spelling@ == x;
        assert(t[1 + j] == (kt.aliases@[j].spelling, kt.canonical, true));
    }
}

/// The spellings of later tokens come after those of earlier ones.
proof fn lemma_offsets_grow(known: Seq<KnownToken>, i: int, j: int)
    requires
        0 <= i < j <= known.len(),
    ensures
        entries(known.take(i)).len() + token_entries(known[i]).len() <= entries(known.take(j)).len(),
{
    lemma_entries_step(known, i);
    lemma_entries_prefix(known.take(j), i + 1);
    assert(known.take(j).take(i + 1) =~= known.take(i + 1));
}

/// In a valid table at most one token matches a name.
proof fn lemma_match_unique(known: Seq<KnownToken>, i1: int, i2: int, x: Seq<char>)
    requires
        table_valid(known),
        0 <= i1 < known.len(),
        0 <= i2 < known.len(),
        token_match(known[i1], x) is Some,
        token_match(known[i2], x) is Some,
    ensures
        i1 == i2,
{
    if i1 != i2 {
        let (lo, hi) = if i1 < i2 {
            (i1, i2)
        } else {
            (i2, i1)
        };
        lemma_match_entry(known[lo], x);
        lemma_match_entry(known[hi], x);
        let p1 = choose|p: int| 0 <= p < token_entries(known[lo]).len() && (#[trigger] token_entries(known[lo])[p]).0@ == x;
        let p2 = choose|p: int| 0 <= p < token_entries(known[hi]).len() && (#[trigger] token_entries(known[hi])[p]).0@ == x;
        lemma_token_at(known, lo);
        lemma_token_at(known, hi);
        lemma_offsets_grow(known, lo, hi);
        let es = entries(known);
        let e1 = entries(known.take(lo)).len() + p1;
        let e2 = entries(known.take(hi)).len() + p2;
        assert(es[e1] == token_entries(known[lo])[p1]);
        assert(es[e2] == token_entries(known[hi])[p2]);
        assert(e1 < e2);
        assert(bad_at(es, e2));
        assert(!bad_at(es, e2));
    }
}

/// When every token that matches `x` is `t`, and one does, the name
/// resolves as `t` matches it.
proof fn lemma_resolve_only(x: Seq<char>, ks: Seq<KnownToken>, t: KnownToken)
    requires
        exists|i: int| 0 <= i < ks.len() && token_match(#[trigger] ks[i], x) is Some,
        forall|i: int| 0 <= i < ks.len() && token_match(#[trigger] ks[i], x) is Some ==> ks[i] == t,
    ensures
        resolve(x, ks) == token_match(t, x),
    decreases ks.len(),
{
    if token_match(ks[0], x) is None {
        let d = ks.drop_first();
        let i = choose|i: int| 0 <= i < ks.len() && token_match(#[trigger] ks[i], x) is Some;
        assert(d[i - 1] == ks[i]);
        assert forall|q: int| 0 <= q < d.len() && token_match(#[trigger] d[q], x) is Some implies d[q] == t by {
            assert(d[q] == ks[q + 1]);
        }
        lemma_resolve_only(x, d, t);
    }
}

/// When no token matches `x`, it resolves to nothing.
proof fn lemma_resolve_none(x: Seq<char>, ks: Seq<KnownToken>)
    requires
        forall|i: int| 0 <= i < ks.len() ==> token_match(#[trigger] ks[i], x) is None,
    ensures
        resolve(x, ks) is None,
    decreases ks.len(),
{
    if ks.len() > 0 {
        let d = ks.drop_first();
        assert forall|q: int| 0 <= q < d.len() implies token_match(#[trigger] d[q], x) is None by {
            assert(d[q] == ks[q + 1]);
        }
        lemma_resolve_none(x, d);
    }
}

/// The order of a valid table does not matter: any reordering of its
/// tokens resolves every name as the table does.
pub proof fn law_valid_table_order_irrelevant(
    known: Seq<KnownToken>,
    perm: Seq<KnownToken>,
    name: Seq<char>,
)
    requires
        table_valid(known),
        perm.to_multiset() == known.to_multiset(),
    ensures
        resolve(name, perm) == resolve(name, known),
{
    assert forall|t: KnownToken| perm.contains(t) <==> known.contains(t) by {
        perm.to_multiset_ensures();
        known.to_multiset_ensures();
        assert(perm.to_multiset().count(t) == known.to_multiset().count(t));
        assert(perm.contains(t) <==> perm.to_multiset().count(t) > 0);
        assert(known.contains(t) <==> known.to_multiset().count(t) > 0);
    }
    if exists|i: int| 0 <= i < known.len() && token_match(#[trigger] known[i], name) is Some {
        let i = choose|i: int| 0 <= i < known.len() && token_match(#[trigger] known[i], name) is Some;
        let t = known[i];
        assert forall|i2: int| 0 <= i2 < known.len() && token_match(#[trigger] known[i2], name) is Some implies known[i2] == t by {
            lemma_match_unique(known, i, i2, name);
        }
        lemma_resolve_only(name, known, t);
        assert(known.contains(t));
        assert(perm.contains(t));
        let p = choose|p: int| 0 <= p < perm.len() && perm[p] == t;
        assert(token_match(perm[p], name) is Some);
        assert forall|q: int| 0 <= q < perm.len() && token_match(#[trigger] perm[q], name) is Some implies perm[q] == t by {
            assert(perm.contains(perm[q]));
            assert(known.contains(perm[q]));
            let i2 = choose|i2: int| 0 <= i2 < known.len() && known[i2] == perm[q];
            lemma_match_unique(known, i, i2, name);
        }
        lemma_resolve_only(name, perm, t);
    } else {
        assert forall|q: int| 0 <= q < perm.len() implies token_match(#[trigger] perm[q], name) is None by {
            assert(perm.contains(perm[q]));
            assert(known.contains(perm[q]));
            let i2 = choose|i2: int| 0 <= i2 < known.len() && known[i2] == perm[q];
        }
        lemma_resolve_none(name, known);
        lemma_resolve_none(name, perm);
    }
}

} // verus!
