//! What the building blocks of the specification mean, stated in terms of
//! their inputs and results: trimming, splitting, table validity and its
//! spellings, the visible aliases, and the environment variable name.
use vstd::prelude::*;

use crate::apply::strip_dash;
use crate::env::env_name;
use crate::help::{join, visible};
use crate::table::{
    alias_status, bad_at, entries, kind_of, resolve, table_valid, token_entries, Alias, AliasStatus,
    KnownToken, Resolved, ResolvedKind, token_match,
};
use crate::text::{lemma_pieces_nonempty, pieces, trim, trim_end, trim_start, white_space};

verus! {

proof fn lemma_trim_start_shape(s: Seq<char>) -> (i: int)
    ensures
        0 <= i <= s.len(),
        trim_start(s) == s.skip(i),
        forall|k: int| 0 <= k < i ==> white_space(#[trigger] s[k]),
        i < s.len() ==> !white_space(s[i]),
    decreases s.len(),
{
    if s.len() > 0 && white_space(s[0]) {
        let d = s.drop_first();
        let i = lemma_trim_start_shape(d);
        assert(d.skip(i) =~= s.skip(i + 1));
        assert forall|k: int| 0 <= k < i + 1 implies white_space(#[trigger] s[k]) by {
            if k > 0 {
                assert(s[k] == d[k - 1]);
            }
        }
        assert(i + 1 < s.len() ==> s[i + 1] == d[i]);
        i + 1
    } else {
        assert(s.skip(0) =~= s);
        0
    }
}

proof fn lemma_trim_end_shape(s: Seq<char>) -> (m: int)
    ensures
        0 <= m <= s.len(),
        trim_end(s) == s.take(m),
        forall|k: int| m <= k < s.len() ==> white_space(#[trigger] s[k]),
        m > 0 ==> !white_space(s[m - 1]),
    decreases s.len(),
{
    if s.len() > 0 && white_space(s.last()) {
        let d = s.drop_last();
        let m = lemma_trim_end_shape(d);
        assert(d.take(m) =~= s.take(m));
        assert forall|k: int| m <= k < s.len() implies white_space(#[trigger] s[k]) by {
            if k < s.len() - 1 {
                assert(s[k] == d[k]);
            }
        }
        assert(m > 0 ==> s[m - 1] == d[m - 1]);
        m
    } else {
        assert(s.take(s.len() as int) =~= s);
        s.len() as int
    }
}

/// Trimming removes exactly the white space at both ends: `trim(s)` is a
/// middle part `s[i..j]` such that everything before `i` and from `j` on is
/// white space, and a non-empty result begins and ends with a character
/// that is not.
pub proof fn law_trim_strips_outer_white_space(s: Seq<char>)
    ensures
        exists|i: int, j: int|
            {
                &&& 0 <= i <= j <= s.len()
                &&& trim(s) == s.subrange(i, j)
                &&& forall|k: int| 0 <= k < i ==> white_space(#[trigger] s[k])
                &&& forall|k: int| j <= k < s.len() ==> white_space(#[trigger] s[k])
                &&& i < j ==> !white_space(s[i]) && !white_space(s[j - 1])
            },
{
    let i = lemma_trim_start_shape(s);
    let t = s.skip(i);
    let m = lemma_trim_end_shape(t);
    let j = i + m;
    assert(t.take(m) =~= s.subrange(i, j));
    assert forall|k: int| j <= k < s.len() implies white_space(#[trigger] s[k]) by {
        assert(s[k] == t[k - i]);
    }
    if i < j {
        assert(s[j - 1] == t[m - 1]);
    }
    assert({
        &&& 0 <= i <= j <= s.len()
        &&& trim(s) == s.subrange(i, j)
        &&& forall|k: int| 0 <= k < i ==> white_space(#[trigger] s[k])
        &&& forall|k: int| j <= k < s.len() ==> white_space(#[trigger] s[k])
        &&& i < j ==> !white_space(s[i]) && !white_space(s[j - 1])
    });
}

proof fn lemma_join_extend_last(ps: Seq<Seq<char>>, t: Seq<char>, sep: Seq<char>)
    requires
        ps.len() > 0,
    ensures
        join(ps.update(ps.len() - 1, ps.last() + t), sep) == join(ps, sep) + t,
{
    let q = ps.update(ps.len() - 1, ps.last() + t);
    if ps.len() == 1 {
    } else {
        assert(q.drop_last() =~= ps.drop_last());
        assert(join(ps, sep) + t =~= join(ps.drop_last(), sep) + sep + (ps.last() + t));
    }
}

/// Splitting on `,` loses nothing and keeps no comma: the pieces of `s`,
/// joined again with `,`, give back `s`, and no piece holds a comma.
pub proof fn law_pieces_split_on_commas(s: Seq<char>)
    ensures
        join(pieces(s), seq![',']) == s,
        forall|k: int| 0 <= k < pieces(s).len() ==> !(#[trigger] pieces(s)[k]).contains(','),
    decreases s.len(),
{
    if s.len() > 0 {
        let d = s.drop_last();
        law_pieces_split_on_commas(d);
        lemma_pieces_nonempty(d);
        let p = pieces(d);
        if s.last() == ',' {
            assert(p.push(Seq::<char>::empty()).drop_last() =~= p);
            assert(join(p.push(Seq::<char>::empty()), seq![',']) =~= d + seq![',']);
            assert(d + seq![','] =~= s);
            assert forall|k: int| 0 <= k < pieces(s).len() implies !(
            #[trigger] pieces(s)[k]).contains(',') by {
                if k < p.len() {
                    assert(pieces(s)[k] == p[k]);
                } else {
                    assert(pieces(s)[k] =~= Seq::<char>::empty());
                }
            }
        } else {
            let c = s.last();
            assert(p.last().push(c) =~= p.last() + seq![c]);
            lemma_join_extend_last(p, seq![c], seq![',']);
            assert(d + seq![c] =~= s);
            assert forall|k: int| 0 <= k < pieces(s).len() implies !(
            #[trigger] pieces(s)[k]).contains(',') by {
                if k < p.len() - 1 {
                    assert(pieces(s)[k] == p[k]);
                } else {
                    let q = p.last().push(c);
                    assert(pieces(s)[k] == q);
                    if q.contains(',') {
                        let x = choose|x: int| 0 <= x < q.len() && q[x] == ',';
                        assert(x < q.len() - 1);
                        assert(p.last()[x] == ',');
                        assert(p.last().contains(','));
                    }
                }
            }
        }
    }
}

/// A table is valid exactly when every spelling in it is non-empty and no
/// two of its spellings are equal.
pub proof fn law_table_valid_exact(known: Seq<KnownToken>)
    ensures
        table_valid(known) <==> {
            let es = entries(known);
            &&& forall|k: int| 0 <= k < es.len() ==> (#[trigger] es[k]).0@.len() > 0
            &&& forall|j: int, k: int|
                0 <= j < k < es.len() ==> (#[trigger] es[j]).0@ != (#[trigger] es[k]).0@
        },
{
    let es = entries(known);
    if table_valid(known) {
        assert forall|k: int| 0 <= k < es.len() implies (#[trigger] es[k]).0@.len() > 0 by {
            assert(!bad_at(es, k));
        }
        assert forall|j: int, k: int| 0 <= j < k < es.len() implies (#[trigger] es[j]).0@ != (
        #[trigger] es[k]).0@ by {
            assert(!bad_at(es, k));
        }
    }
    if (forall|k: int| 0 <= k < es.len() ==> (#[trigger] es[k]).0@.len() > 0) && (forall|
        j: int,
        k: int,
    | 0 <= j < k < es.len() ==> (#[trigger] es[j]).0@ != (#[trigger] es[k]).0@) {
        assert forall|k: int| 0 <= k < es.len() implies !#[trigger] bad_at(es, k) by {
            assert(es[k].0@.len() > 0);
            if exists|j: int| 0 <= j < k && es[j].0@ == #[trigger] es[k].0@ {
                let j = choose|j: int| 0 <= j < k && es[j].0@ == #[trigger] es[k].0@;
                assert(es[j].0@ != es[k].0@);
            }
        }
    }
}

/// `x` is a spelling of `kt`: its canonical or one of its aliases.
pub open spec fn spells(kt: KnownToken, x: Seq<char>) -> bool {
    kt.canonical@ == x || exists|j: int|
        0 <= j < kt.aliases@.len() && (#[trigger] kt.aliases@[j]).spelling@ == x
}

/// The spellings that table validation looks at are exactly the canonicals
/// and the aliases of the table's tokens.
pub proof fn law_table_spellings(known: Seq<KnownToken>, x: Seq<char>)
    ensures
        (exists|k: int| 0 <= k < entries(known).len() && (#[trigger] entries(known)[k]).0@ == x)
            <==> (exists|i: int| 0 <= i < known.len() && spells(#[trigger] known[i], x)),
    decreases known.len(),
{
    let es = entries(known);
    if known.len() > 0 {
        let d = known.drop_last();
        law_table_spellings(d, x);
        let last = known.last();
        let t = token_entries(last);
        let ed = entries(d);
        assert(es == ed + t);
        if exists|k: int| 0 <= k < es.len() && (#[trigger] es[k]).0@ == x {
            let k = choose|k: int| 0 <= k < es.len() && (#[trigger] es[k]).0@ == x;
            if k < ed.len() {
                assert(ed[k] == es[k]);
                let i = choose|i: int| 0 <= i < d.len() && spells(#[trigger] d[i], x);
                assert(known[i] == d[i]);
            } else {
                let p = k - ed.len();
                assert(es[k] == t[p]);
                if p == 0 {
                    assert(spells(known[known.len() - 1], x));
                } else {
                    assert(t[p] == (last.aliases@[p - 1].spelling, last.canonical, true));
                    assert(spells(known[known.len() - 1], x));
                }
            }
        }
        if exists|i: int| 0 <= i < known.len() && spells(#[trigger] known[i], x) {
            let i = choose|i: int| 0 <= i < known.len() && spells(#[trigger] known[i], x);
            if i < d.len() {
                assert(d[i] == known[i]);
                let k = choose|k: int| 0 <= k < ed.len() && (#[trigger] ed[k]).0@ == x;
                assert(es[k] == ed[k]);
            } else {
                assert(known[i] == last);
                if last.canonical@ == x {
                    assert(es[ed.len() as int] == t[0]);
                } else {
                    let j = choose|j: int|
                        0 <= j < last.aliases@.len() && (#[trigger] last.aliases@[j]).spelling@ == x;
                    assert(t[1 + j] == (last.aliases@[j].spelling, last.canonical, true));
                    assert(es[ed.len() + 1 + j] == t[1 + j]);
                }
            }
        }
    }
}

/// The visible aliases are exactly the spellings of the aliases that are
/// not hidden, in their order.
pub proof fn law_visible_aliases(al: Seq<Alias>)
    ensures
        visible(al) == al.filter(|a: Alias| a.status != AliasStatus::Hidden).map_values(
            |a: Alias| a.spelling@,
        ),
    decreases al.len(),
{
    reveal(Seq::filter);
    if al.len() > 0 {
        law_visible_aliases(al.drop_last());
        let f = al.drop_last().filter(|a: Alias| a.status != AliasStatus::Hidden);
        if al.last().status != AliasStatus::Hidden {
            assert(f.push(al.last()).map_values(|a: Alias| a.spelling@) =~= f.map_values(
                |a: Alias| a.spelling@,
            ).push(al.last().spelling@));
        }
    }
}

/// The name of the environment variable: the prefix, `_`, then the flag,
/// character for character, where every ASCII lower-case letter becomes
/// its upper-case letter, every `-` of the flag becomes `_`, and every other
/// character stays as it is; so the name holds no ASCII lower-case letter.
pub proof fn law_env_name_chars(prefix: Seq<char>, flag: Seq<char>)
    ensures
        ({
            let r = env_name(prefix, flag);
            let n = prefix.len() as int;
            &&& r.len() == n + 1 + flag.len()
            &&& r[n] == '_'
            &&& forall|k: int|
                0 <= k < n ==> if 'a' <= #[trigger] prefix[k] <= 'z' {
                    r[k] as u32 + 32 == prefix[k] as u32
                } else {
                    r[k] == prefix[k]
                }
            &&& forall|k: int|
                0 <= k < flag.len() ==> if #[trigger] flag[k] == '-' {
                    r[n + 1 + k] == '_'
                } else if 'a' <= flag[k] <= 'z' {
                    r[n + 1 + k] as u32 + 32 == flag[k] as u32
                } else {
                    r[n + 1 + k] == flag[k]
                }
            &&& forall|k: int| 0 <= k < r.len() ==> !('a' <= #[trigger] r[k] <= 'z')
        }),
{
    let r = env_name(prefix, flag);
    let n = prefix.len() as int;
    assert forall|k: int| 0 <= k < n implies (if 'a' <= #[trigger] prefix[k] <= 'z' {
        r[k] as u32 + 32 == prefix[k] as u32
    } else {
        r[k] == prefix[k]
    }) by {
        assert(r[k] == crate::env::ascii_upper(prefix[k]));
    }
    assert forall|k: int| 0 <= k < flag.len() implies (if #[trigger] flag[k] == '-' {
        r[n + 1 + k] == '_'
    } else if 'a' <= flag[k] <= 'z' {
        r[n + 1 + k] as u32 + 32 == flag[k] as u32
    } else {
        r[n + 1 + k] == flag[k]
    }) by {
        assert(r[n + 1 + k] == crate::env::flag_char(flag[k]));
    }
    assert forall|k: int| 0 <= k < r.len() implies !('a' <= #[trigger] r[k] <= 'z') by {
        if k < n {
            assert(r[k] == crate::env::ascii_upper(prefix[k]));
        } else if k > n {
            assert(r[k] == crate::env::flag_char(flag[k - n - 1]));
        }
    }
}

/// A token loses at most one leading `-`, and loses it exactly when it
/// starts with one: the name with the dash put back (on removal) is the
/// token itself.
pub proof fn law_strip_one_dash(t: Seq<char>)
    ensures
        ({
            let (name, add) = strip_dash(t);
            &&& add <==> !(t.len() > 0 && t[0] == '-')
            &&& add ==> name == t
            &&& !add ==> seq!['-'] + name == t
        }),
{
    if t.len() > 0 && t[0] == '-' {
        assert(seq!['-'] + t.drop_first() =~= t);
    }
}

proof fn lemma_alias_status_first(x: Seq<char>, al: Seq<Alias>)
    ensures
        alias_status(x, al) is None <==> forall|j: int|
            0 <= j < al.len() ==> (#[trigger] al[j]).spelling@ != x,
        alias_status(x, al) matches Some(st) ==> exists|j: int|
            {
                &&& 0 <= j < al.len()
                &&& (#[trigger] al[j]).spelling@ == x
                &&& st == al[j].status
                &&& forall|q: int| 0 <= q < j ==> (#[trigger] al[q]).spelling@ != x
            },
    decreases al.len(),
{
    if al.len() > 0 {
        let d = al.drop_first();
        lemma_alias_status_first(x, d);
        assert forall|j: int| 0 <= j < d.len() implies #[trigger] d[j] == al[j + 1] by {}
        if al[0].spelling@ == x {
            assert(forall|q: int| 0 <= q < 0 ==> (#[trigger] al[q]).spelling@ != x);
        } else {
            match alias_status(x, d) {
                Some(st) => {
                    let j = choose|j: int|
                        {
                            &&& 0 <= j < d.len()
                            &&& (#[trigger] d[j]).spelling@ == x
                            &&& st == d[j].status
                            &&& forall|q: int| 0 <= q < j ==> (#[trigger] d[q]).spelling@ != x
                        };
                    assert(al[j + 1] == d[j]);
                    assert forall|q: int| 0 <= q < j + 1 implies (#[trigger] al[q]).spelling@ != x by {
                        if q > 0 {
                            assert(al[q] == d[q - 1]);
                        }
                    }
                },
                None => {
                    assert forall|j: int| 0 <= j < al.len() implies (#[trigger] al[j]).spelling@ != x by {
                        if j > 0 {
                            assert(al[j] == d[j - 1]);
                        }
                    }
                },
            }
        }
    }
}

/// Token `i` is the first of `ks` that spells `x`.
pub open spec fn first_spelling_at(ks: Seq<KnownToken>, i: int, x: Seq<char>) -> bool {
    &&& 0 <= i < ks.len()
    &&& spells(ks[i], x)
    &&& forall|q: int| 0 <= q < i ==> !spells(#[trigger] ks[q], x)
}

/// `r` is the match of `x` through `kt`: its canonical, as a canonical match
/// when `x` is the canonical, else with the kind of the first alias spelled
/// `x`.
pub open spec fn matched_through(kt: KnownToken, x: Seq<char>, r: Resolved) -> bool {
    &&& r.canonical == kt.canonical
    &&& (r.kind == ResolvedKind::Canonical <==> kt.canonical@ == x)
    &&& r.kind != ResolvedKind::Canonical ==> exists|j: int|
        {
            &&& 0 <= j < kt.aliases@.len()
            &&& (#[trigger] kt.aliases@[j]).spelling@ == x
            &&& r.kind == kind_of(kt.aliases@[j].status)
            &&& forall|q: int| 0 <= q < j ==> (#[trigger] kt.aliases@[q]).spelling@ != x
        }
}

proof fn lemma_token_match(kt: KnownToken, x: Seq<char>)
    ensures
        token_match(kt, x) is None <==> !spells(kt, x),
        token_match(kt, x) matches Some(r) ==> matched_through(kt, x, r),
{
    lemma_alias_status_first(x, kt.aliases@);
    if kt.canonical@ != x {
        match alias_status(x, kt.aliases@) {
            Some(st) => {
                let j = choose|j: int|
                    {
                        &&& 0 <= j < kt.aliases@.len()
                        &&& (#[trigger] kt.aliases@[j]).spelling@ == x
                        &&& st == kt.aliases@[j].status
                        &&& forall|q: int| 0 <= q < j ==> (#[trigger] kt.aliases@[q]).spelling@ != x
                    };
                let r = token_match(kt, x).unwrap();
                assert(r.kind == kind_of(st));
                assert(r.kind != ResolvedKind::Canonical);
            },
            None => {},
        }
    }
}

/// How a name resolves in any table, valid or not: to nothing exactly when
/// no token spells it; otherwise through the first token, in table order,
/// that spells it: as a canonical match when it is that token's canonical,
/// and else through the first alias of that token spelled like it, with
/// the kind that the alias's status gives.
pub proof fn law_resolve_first_spelling(x: Seq<char>, ks: Seq<KnownToken>)
    ensures
        resolve(x, ks) is None <==> forall|i: int| 0 <= i < ks.len() ==> !spells(#[trigger] ks[i], x),
        resolve(x, ks) matches Some(r) ==> exists|i: int|
            #[trigger] first_spelling_at(ks, i, x) && matched_through(ks[i], x, r),
    decreases ks.len(),
{
    if ks.len() > 0 {
        let k0 = ks[0];
        let d = ks.drop_first();
        law_resolve_first_spelling(x, d);
        lemma_token_match(k0, x);
        assert forall|i: int| 0 <= i < d.len() implies #[trigger] d[i] == ks[i + 1] by {}
        if !spells(k0, x) {
            if resolve(x, ks) is None {
                assert forall|i: int| 0 <= i < ks.len() implies !spells(#[trigger] ks[i], x) by {
                    if i > 0 {
                        assert(ks[i] == d[i - 1]);
                    }
                }
            } else {
                let r = resolve(x, ks).unwrap();
                let i = choose|i: int| #[trigger] first_spelling_at(d, i, x) && matched_through(d[i], x, r);
                assert(ks[i + 1] == d[i]);
                assert forall|q: int| 0 <= q < i + 1 implies !spells(#[trigger] ks[q], x) by {
                    if q > 0 {
                        assert(ks[q] == d[q - 1]);
                    }
                }
                assert(first_spelling_at(ks, i + 1, x));
            }
        } else {
            assert(!spells(ks[0], x) == false);
            assert(first_spelling_at(ks, 0, x));
        }
    }
}

} // verus!
