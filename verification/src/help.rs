//! A listing of the known-token table for help text and error messages.
use vstd::prelude::*;
use vstd::string::StringExecFns;

use crate::table::{Alias, AliasStatus, KnownToken};

verus! {

/// `parts` joined with `sep` between neighbours.
pub open spec fn join(parts: Seq<Seq<char>>, sep: Seq<char>) -> Seq<char>
    decreases parts.len(),
{
    if parts.len() == 0 {
        Seq::empty()
    } else if parts.len() == 1 {
        parts[0]
    } else {
        join(parts.drop_last(), sep) + sep + parts.last()
    }
}

/// The spellings of the aliases that are not hidden, in order.
pub open spec fn visible(aliases: Seq<Alias>) -> Seq<Seq<char>>
    decreases aliases.len(),
{
    if aliases.len() == 0 {
        Seq::empty()
    } else if aliases.last().status == AliasStatus::Hidden {
        visible(aliases.drop_last())
    } else {
        visible(aliases.drop_last()).push(aliases.last().spelling@)
    }
}

/// One token in the listing: its canonical, then its visible aliases in
/// parentheses, if it has any.
pub open spec fn token_listing(kt: KnownToken) -> Seq<char> {
    let v = visible(kt.aliases@);
    if v.len() == 0 {
        kt.canonical@
    } else {
        kt.canonical@ + seq![' ', '('] + join(v, seq![',', ' ']) + seq![')']
    }
}

/// The listing of a table: its tokens' listings joined by `, `.
pub open spec fn listing(known: Seq<KnownToken>) -> Seq<char> {
    join(known.map_values(|kt: KnownToken| token_listing(kt)), seq![',', ' '])
}

proof fn lemma_join_push(parts: Seq<Seq<char>>, x: Seq<char>, sep: Seq<char>)
    ensures
        join(parts.push(x), sep) == if parts.len() == 0 {
            x
        } else {
            join(parts, sep) + sep + x
        },
{
    assert(parts.push(x).drop_last() =~= parts);
}

/// A comma-separated listing of the canonicals, each followed by its
/// non-hidden aliases in parentheses, e.g.
/// `foo, bar (barre), baz (baz-alt, old-baz)`; hidden aliases are left out.
pub fn format_known_for_help(known: &[KnownToken]) -> (r: String)
    ensures
        r@ == listing(known@),
{
    let mut out = String::new();
    let ghost sep = seq![',', ' '];
    proof {
        reveal_strlit(", ");
        reveal_strlit(" (");
        reveal_strlit(")");
    }
    let mut i: usize = 0;
    assert(known@.take(0).map_values(|kt: KnownToken| token_listing(kt)) =~= Seq::<Seq<char>>::empty());
    while i < known.len()
        invariant
            i <= known@.len(),
            sep == seq![',', ' '],
            ", "@ == sep,
            " ("@ == seq![' ', '('],
            ")"@ == seq![')'],
            out@ == join(known@.take(i as int).map_values(|kt: KnownToken| token_listing(kt)), sep),
        decreases known@.len() - i,
    {
        let kt = known[i];
        let ghost before = known@.take(i as int).map_values(|kt: KnownToken| token_listing(kt));
        let ghost lead = if i == 0 { Seq::<char>::empty() } else { out@ + sep };
        if i > 0 {
            out.append(", ");
        }
        assert(out@ == lead) by {
            if i == 0 {
                assert(out@ =~= Seq::<char>::empty()) by {
                    assert(before =~= Seq::<Seq<char>>::empty());
                }
            }
        }
        out.append(kt.canonical);
        let aliases = kt.aliases;
        let mut shown: usize = 0;
        let mut j: usize = 0;
        assert(aliases@.take(0) =~= Seq::<Alias>::empty());
        while j < aliases.len()
            invariant
                j <= aliases@.len(),
                aliases == kt.aliases,
                sep == seq![',', ' '],
                ", "@ == sep,
                " ("@ == seq![' ', '('],
                shown <= j,
                shown == visible(aliases@.take(j as int)).len(),
                out@ == lead + kt.canonical@ + (if shown == 0 {
                    Seq::<char>::empty()
                } else {
                    seq![' ', '('] + join(visible(aliases@.take(j as int)), sep)
                }),
            decreases aliases@.len() - j,
        {
            let al = aliases[j];
            let ghost v = visible(aliases@.take(j as int));
            assert(aliases@.take(j + 1).drop_last() =~= aliases@.take(j as int));
            assert(aliases@.take(j + 1).last() == al);
            match al.status {
                AliasStatus::Hidden => {},
                _ => {
                    proof {
                        lemma_join_push(v, al.spelling@, sep);
                    }
                    if shown == 0 {
                        out.append(" (");
                    } else {
                        out.append(", ");
                    }
                    out.append(al.spelling);
                    shown = shown + 1;
                },
            }
            j = j + 1;
        }
        assert(aliases@.take(j as int) =~= aliases@);
        if shown > 0 {
            out.append(")");
        }
        assert(known@.take(i + 1).map_values(|kt: KnownToken| token_listing(kt)) =~= before.push(
            token_listing(kt),
        ));
        proof {
            lemma_join_push(before, token_listing(kt), sep);
        }
        i = i + 1;
    }
    assert(known@.take(i as int) =~= known@);
    out
}

} // verus!
