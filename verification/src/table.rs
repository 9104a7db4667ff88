//! The caller's table of known tokens, and how a spelling resolves in it.
use vstd::prelude::*;

use crate::text::{chars_of, spelled_as, same_chars};

verus! {

/// How an alias is treated by callers that surface user-facing messaging.
#[derive(Debug, Clone, Copy, PartialEq, Eq, Structural)]
pub enum AliasStatus {
    /// Intentional alternate spelling, equally valid as the canonical.
    Alternative,
    /// Still resolves but callers should warn or migrate.
    Deprecated,
    /// Resolves silently; left out of help listings.
    Hidden,
}

/// One alias spelling for a [`KnownToken`].
#[derive(Debug, Clone, Copy)]
pub struct Alias {
    pub spelling: &'static str,
    pub status: AliasStatus,
}

impl Alias {
    /// An alternate spelling.
    pub fn alt(spelling: &'static str) -> (r: Self)
        ensures
            r.spelling == spelling,
            r.status == AliasStatus::Alternative,
    {
        Alias { spelling, status: AliasStatus::Alternative }
    }

    /// A deprecated spelling.
    pub fn deprecated(spelling: &'static str) -> (r: Self)
        ensures
            r.spelling == spelling,
            r.status == AliasStatus::Deprecated,
    {
        Alias { spelling, status: AliasStatus::Deprecated }
    }

    /// A hidden spelling.
    pub fn hidden(spelling: &'static str) -> (r: Self)
        ensures
            r.spelling == spelling,
            r.status == AliasStatus::Hidden,
    {
        Alias { spelling, status: AliasStatus::Hidden }
    }
}

/// One entry in the caller's known-token table: a canonical spelling plus
/// zero or more aliases that resolve to it.
#[derive(Debug, Clone, Copy)]
pub struct KnownToken {
    pub canonical: &'static str,
    pub aliases: &'static [Alias],
}

impl KnownToken {
    /// A token with no aliases.
    pub fn new(canonical: &'static str) -> (r: Self)
        ensures
            r.canonical == canonical,
            r.aliases@.len() == 0,
    {
        KnownToken { canonical, aliases: &[] }
    }
}

/// Why an input matched: the canonical spelling, or an alias of some status.
#[derive(Debug, Clone, Copy, PartialEq, Eq, Structural)]
pub enum ResolvedKind {
    Canonical,
    Alternative,
    Deprecated,
    Hidden,
}

/// Result of resolving one input token against a known-token list.
#[derive(Debug, Clone, Copy, PartialEq, Eq)]
pub struct Resolved {
    pub canonical: &'static str,
    pub kind: ResolvedKind,
}

/// The kind of match an alias of status `s` gives.
pub open spec fn kind_of(s: AliasStatus) -> ResolvedKind {
    match s {
        AliasStatus::Alternative => ResolvedKind::Alternative,
        AliasStatus::Deprecated => ResolvedKind::Deprecated,
        AliasStatus::Hidden => ResolvedKind::Hidden,
    }
}

/// The status of the first alias in `aliases` spelled `name`, if any.
pub open spec fn alias_status(name: Seq<char>, aliases: Seq<Alias>) -> Option<AliasStatus>
    decreases aliases.len(),
{
    if aliases.len() == 0 {
        None
    } else if aliases[0].spelling@ == name {
        Some(aliases[0].status)
    } else {
        alias_status(name, aliases.drop_first())
    }
}

/// How the token `kt` matches `name`: as its canonical, or else through its
/// first alias spelled `name`, with the kind that alias's status gives.
pub open spec fn token_match(kt: KnownToken, name: Seq<char>) -> Option<Resolved> {
    if kt.canonical@ == name {
        Some(Resolved { canonical: kt.canonical, kind: ResolvedKind::Canonical })
    } else {
        match alias_status(name, kt.aliases@) {
            Some(s) => Some(Resolved { canonical: kt.canonical, kind: kind_of(s) }),
            None => None,
        }
    }
}

/// How `name` resolves in `known`: the match of the first token, in table
/// order, that matches it.
pub open spec fn resolve(name: Seq<char>, known: Seq<KnownToken>) -> Option<Resolved>
    decreases known.len(),
{
    if known.len() == 0 {
        None
    } else {
        match token_match(known[0], name) {
            Some(r) => Some(r),
            None => resolve(name, known.drop_first()),
        }
    }
}

fn kind_of_status(s: AliasStatus) -> (r: ResolvedKind)
    ensures
        r == kind_of(s),
{
    match s {
        AliasStatus::Alternative => ResolvedKind::Alternative,
        AliasStatus::Deprecated => ResolvedKind::Deprecated,
        AliasStatus::Hidden => ResolvedKind::Hidden,
    }
}

/// Resolves the characters `b[lo..hi]` in `known`.
pub(crate) fn resolve_chars(b: &Vec<char>, lo: usize, hi: usize, known: &[KnownToken]) -> (r:
    Option<Resolved>)
    requires
        lo <= hi <= b@.len(),
    ensures
        r == resolve(b@.subrange(lo as int, hi as int), known@),
{
    let ghost name = b@.subrange(lo as int, hi as int);
    assert(known@.skip(0) =~= known@);
    let mut i: usize = 0;
    while i < known.len()
        invariant
            i <= known@.len(),
            lo <= hi <= b@.len(),
            name == b@.subrange(lo as int, hi as int),
            resolve(name, known@) == resolve(name, known@.skip(i as int)),
        decreases known@.len() - i,
    {
        let kt = known[i];
        assert(known@.skip(i as int)[0] == kt);
        assert(known@.skip(i as int).drop_first() =~= known@.skip(i + 1));
        if spelled_as(kt.canonical, b, lo, hi) {
            return Some(Resolved { canonical: kt.canonical, kind: ResolvedKind::Canonical });
        }
        let aliases = kt.aliases;
        assert(aliases@.skip(0) =~= aliases@);
        let mut j: usize = 0;
        while j < aliases.len()
            invariant
                j <= aliases@.len(),
                lo <= hi <= b@.len(),
                name == b@.subrange(lo as int, hi as int),
                alias_status(name, aliases@) == alias_status(name, aliases@.skip(j as int)),
                i < known@.len(),
                kt == known@[i as int],
                aliases == kt.aliases,
                kt.canonical@ != name,
                resolve(name, known@) == resolve(name, known@.skip(i as int)),
                known@.skip(i as int)[0] == kt,
            decreases aliases@.len() - j,
        {
            let al = aliases[j];
            assert(aliases@.skip(j as int)[0] == al);
            assert(aliases@.skip(j as int).drop_first() =~= aliases@.skip(j + 1));
            if spelled_as(al.spelling, b, lo, hi) {
                let kind = kind_of_status(al.status);
                return Some(Resolved { canonical: kt.canonical, kind });
            }
            j = j + 1;
        }
        assert(aliases@.skip(j as int) =~= Seq::<Alias>::empty());
        i = i + 1;
    }
    assert(known@.skip(i as int) =~= Seq::<KnownToken>::empty());
    None
}

/// Look up `input` (one bare token, no `-` prefix) against `known`.
/// Returns the canonical entry and how the input matched, or `None` if the
/// input is neither a canonical nor an alias of any known token.
pub fn canonicalize(input: &str, known: &[KnownToken]) -> (r: Option<Resolved>)
    ensures
        r == resolve(input@, known@),
{
    let b = chars_of(input);
    assert(b@.subrange(0, b@.len() as int) =~= input@);
    resolve_chars(&b, 0, b.len(), known)
}

/// One spelling of the table, in table order: the spelling, the canonical
/// of the token it belongs to, and whether it is an alias.
pub type Entry = (&'static str, &'static str, bool);

/// The spellings of one token: its canonical, then its aliases in order.
pub open spec fn token_entries(kt: KnownToken) -> Seq<Entry> {
    seq![(kt.canonical, kt.canonical, false)] + kt.aliases@.map_values(
        |a: Alias| (a.spelling, kt.canonical, true),
    )
}

/// All spellings of the table, token by token.
pub open spec fn entries(known: Seq<KnownToken>) -> Seq<Entry>
    decreases known.len(),
{
    if known.len() == 0 {
        Seq::empty()
    } else {
        entries(known.drop_last()) + token_entries(known.last())
    }
}

/// Entry `k` is empty or repeats the spelling of an earlier entry.
pub open spec fn bad_at(es: Seq<Entry>, k: int) -> bool {
    ||| es[k].0@.len() == 0
    ||| exists|j: int| 0 <= j < k && es[j].0@ == #[trigger] es[k].0@
}

/// Every spelling in the table, canonical or alias, is non-empty and
/// occurs once.
pub open spec fn table_valid(known: Seq<KnownToken>) -> bool {
    let es = entries(known);
    forall|k: int| 0 <= k < es.len() ==> !#[trigger] bad_at(es, k)
}

/// Why a known-token table is malformed.
#[derive(Debug, Clone, Copy, PartialEq, Eq)]
pub enum KnownTableError {
    /// A token has an empty canonical spelling.
    EmptyCanonical,
    /// An alias of the token with this canonical is empty.
    EmptyAlias(&'static str),
    /// A canonical repeats an earlier spelling.
    DuplicateCanonical(&'static str),
    /// An alias repeats an earlier spelling.
    DuplicateAlias(&'static str),
}

/// The problem reported for a bad entry.
pub open spec fn problem(e: Entry) -> KnownTableError {
    if e.0@.len() == 0 {
        if e.2 {
            KnownTableError::EmptyAlias(e.1)
        } else {
            KnownTableError::EmptyCanonical
        }
    } else if e.2 {
        KnownTableError::DuplicateAlias(e.0)
    } else {
        KnownTableError::DuplicateCanonical(e.0)
    }
}

/// `k` is the first bad entry of `es`.
pub open spec fn first_bad(es: Seq<Entry>, k: int) -> bool {
    &&& 0 <= k < es.len()
    &&& bad_at(es, k)
    &&& forall|m: int| 0 <= m < k ==> !#[trigger] bad_at(es, m)
}

pub(crate) proof fn lemma_entries_step(known: Seq<KnownToken>, i: int)
    requires
        0 <= i < known.len(),
    ensures
        entries(known.take(i + 1)) == entries(known.take(i)) + token_entries(known[i]),
{
    assert(known.take(i + 1).drop_last() =~= known.take(i));
}

pub(crate) proof fn lemma_entries_prefix(known: Seq<KnownToken>, i: int)
    requires
        0 <= i <= known.len(),
    ensures
        entries(known.take(i)).len() <= entries(known).len(),
        entries(known.take(i)) =~= entries(known).take(entries(known.take(i)).len() as int),
    decreases known.len() - i,
{
    if i < known.len() {
        lemma_entries_prefix(known, i + 1);
        lemma_entries_step(known, i);
    } else {
        assert(known.take(i) =~= known);
    }
}

fn seen_before(seen: &Vec<Vec<char>>, c: &Vec<char>) -> (r: bool)
    ensures
        r == exists|m: int| 0 <= m < seen@.len() && (#[trigger] seen@[m])@ == c@,
{
    let mut m: usize = 0;
    while m < seen.len()
        invariant
            m <= seen@.len(),
            forall|x: int| 0 <= x < m ==> (#[trigger] seen@[x])@ != c@,
        decreases seen@.len() - m,
    {
        assert(c@.subrange(0, c@.len() as int) =~= c@);
        if same_chars(&seen[m], c, 0, c.len()) {
            return true;
        }
        m = m + 1;
    }
    false
}

/// Validate `known` for self-consistency: every canonical and alias
/// spelling must be non-empty and occur once in the whole table. Reports
/// the first problem in table order (each token's canonical, then its
/// aliases).
pub fn validate_known(known: &[KnownToken]) -> (r: Result<(), KnownTableError>)
    ensures
        r is Ok <==> table_valid(known@),
        r matches Err(e) ==> exists|k: int|
            #[trigger] first_bad(entries(known@), k) && e == problem(entries(known@)[k]),
{
    let ghost es = entries(known@);
    let mut seen: Vec<Vec<char>> = Vec::new();
    let mut i: usize = 0;
    proof {
        assert(known@.take(0) =~= Seq::<KnownToken>::empty());
        lemma_entries_prefix(known@, 0);
    }
    while i < known.len()
        invariant
            i <= known@.len(),
            es == entries(known@),
            seen@.len() == entries(known@.take(i as int)).len(),
            seen@.len() <= es.len(),
            entries(known@.take(i as int)) == es.take(seen@.len() as int),
            forall|m: int| 0 <= m < seen@.len() ==> (#[trigger] seen@[m])@ == es[m].0@,
            forall|m: int| 0 <= m < seen@.len() ==> !#[trigger] bad_at(es, m),
        decreases known@.len() - i,
    {
        let kt = known[i];
        proof {
            lemma_entries_step(known@, i as int);
            lemma_entries_prefix(known@, i + 1);
        }
        let ghost base = seen@.len() as int;
        let ghost done = entries(known@.take(i as int));
        assert(entries(known@.take(i + 1)) == done + token_entries(kt));
        assert(es[base] == entries(known@.take(i + 1))[base]);
        assert(es[base] == (kt.canonical, kt.canonical, false));
        let c = chars_of(kt.canonical);
        if c.len() == 0 {
            assert(first_bad(es, base));
            return Err(KnownTableError::EmptyCanonical);
        }
        if seen_before(&seen, &c) {
            proof {
                let m = choose|m: int| 0 <= m < seen@.len() && (#[trigger] seen@[m])@ == c@;
                assert(es[m].0@ == es[base].0@);
                assert(bad_at(es, base));
                assert(first_bad(es, base));
            }
            return Err(KnownTableError::DuplicateCanonical(kt.canonical));
        }
        proof {
            assert forall|j: int| 0 <= j < base implies es[j].0@ != es[base].0@ by {
                assert(seen@[j]@ == es[j].0@);
            }
            assert(!bad_at(es, base));
        }
        seen.push(c);
        let aliases = kt.aliases;
        let mut j: usize = 0;
        while j < aliases.len()
            invariant
                j <= aliases@.len(),
                aliases == kt.aliases,
                es == entries(known@),
                seen@.len() == base + 1 + j,
                entries(known@.take(i + 1)) == done + token_entries(kt),
                entries(known@.take(i + 1)) == es.take(entries(known@.take(i + 1)).len() as int),
                entries(known@.take(i + 1)).len() <= es.len(),
                done.len() == base,
                forall|m: int| 0 <= m < seen@.len() ==> (#[trigger] seen@[m])@ == es[m].0@,
                forall|m: int| 0 <= m < seen@.len() ==> !#[trigger] bad_at(es, m),
            decreases aliases@.len() - j,
        {
            let al = aliases[j];
            let ghost at = base + 1 + j;
            assert(token_entries(kt)[1 + j] == (al.spelling, kt.canonical, true));
            assert(es[at] == entries(known@.take(i + 1))[at]);
            assert(es[at] == (al.spelling, kt.canonical, true));
            let a = chars_of(al.spelling);
            if a.len() == 0 {
                assert(first_bad(es, at));
                return Err(KnownTableError::EmptyAlias(kt.canonical));
            }
            if seen_before(&seen, &a) {
                proof {
                    let m = choose|m: int| 0 <= m < seen@.len() && (#[trigger] seen@[m])@ == a@;
                    assert(es[m].0@ == es[at].0@);
                    assert(bad_at(es, at));
                    assert(first_bad(es, at));
                }
                return Err(KnownTableError::DuplicateAlias(al.spelling));
            }
            proof {
                assert forall|x: int| 0 <= x < at implies es[x].0@ != es[at].0@ by {
                    assert(seen@[x]@ == es[x].0@);
                }
                assert(!bad_at(es, at));
            }
            seen.push(a);
            j = j + 1;
        }
        i = i + 1;
    }
    proof {
        assert(known@.take(i as int) =~= known@);
    }
    Ok(())
}

/// Startup check of a known-token table, for tables that callers know to be
/// valid: every spelling non-empty and unique. The table is walked as
/// [`validate_known`] does, which is proved to find no problem.
pub fn check_known(known: &[KnownToken])
    requires
        table_valid(known@),
{
    let r = validate_known(known);
    assert(r is Ok);
}

} // verus!
