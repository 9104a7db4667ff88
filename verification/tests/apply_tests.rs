use std::collections::HashSet;

use polyflag::{
    apply, apply_env_value, apply_with_callback, canonicalize, Alias, AliasStatus, KnownToken,
    Resolved, ResolvedKind, UnknownToken,
};

const KNOWN: &[KnownToken] = &[
    KnownToken { canonical: "foo", aliases: &[] },
    KnownToken {
        canonical: "bar",
        aliases: &[Alias { spelling: "barre", status: AliasStatus::Alternative }],
    },
    KnownToken {
        canonical: "baz",
        aliases: &[
            Alias { spelling: "baz-alt", status: AliasStatus::Alternative },
            Alias { spelling: "old-baz", status: AliasStatus::Deprecated },
            Alias { spelling: "b", status: AliasStatus::Hidden },
        ],
    },
];

fn run(inputs: &[&str]) -> Result<HashSet<&'static str>, UnknownToken> {
    let mut set: HashSet<&'static str> = HashSet::new();
    for s in inputs {
        apply(s, KNOWN, &mut set)?;
    }
    Ok(set)
}

#[test]
fn add_dedup() {
    let s = run(&["foo,bar", "foo"]).unwrap();
    assert_eq!(s, HashSet::from(["foo", "bar"]));
}

#[test]
fn remove_after_add() {
    let s = run(&["foo,bar,baz", "-foo"]).unwrap();
    assert_eq!(s, HashSet::from(["bar", "baz"]));
}

#[test]
fn add_after_remove() {
    let s = run(&["-foo", "foo"]).unwrap();
    assert_eq!(s, HashSet::from(["foo"]));
}

#[test]
fn alias_resolves_to_canonical() {
    let s = run(&["barre"]).unwrap();
    assert_eq!(s, HashSet::from(["bar"]));
    // alias is input-only; the canonical is what lives in the set.
    assert!(!s.contains("barre"));
}

#[test]
fn remove_via_alias_strips_canonical() {
    let s = run(&["bar,foo", "-barre"]).unwrap();
    assert_eq!(s, HashSet::from(["foo"]));
}

#[test]
fn canonical_and_alias_are_interchangeable() {
    let a = run(&["bar"]).unwrap();
    let b = run(&["barre"]).unwrap();
    assert_eq!(a, b);
}

#[test]
fn deprecated_alias_fires_callback() {
    let mut set = HashSet::new();
    let mut warnings: Vec<(String, &'static str)> = Vec::new();
    apply_with_callback("old-baz", KNOWN, &mut set, |sp: &str, canon: &'static str| {
        warnings.push((sp.to_owned(), canon));
    })
    .unwrap();
    assert_eq!(set, HashSet::from(["baz"]));
    assert_eq!(warnings, vec![("old-baz".to_owned(), "baz")]);
}

#[test]
fn alternative_alias_does_not_fire_callback() {
    let mut set = HashSet::new();
    let mut fired = false;
    apply_with_callback("barre", KNOWN, &mut set, |_: &str, _: &'static str| fired = true)
        .unwrap();
    assert!(!fired);
}

#[test]
fn hidden_alias_resolves_silently() {
    let mut set = HashSet::new();
    let mut fired = false;
    apply_with_callback("b", KNOWN, &mut set, |_: &str, _: &'static str| fired = true).unwrap();
    assert_eq!(set, HashSet::from(["baz"]));
    assert!(!fired);
}

#[test]
fn canonicalize_classifies_match_kind() {
    assert_eq!(
        canonicalize("foo", KNOWN),
        Some(Resolved { canonical: "foo", kind: ResolvedKind::Canonical })
    );
    assert_eq!(
        canonicalize("barre", KNOWN),
        Some(Resolved { canonical: "bar", kind: ResolvedKind::Alternative })
    );
    assert_eq!(
        canonicalize("old-baz", KNOWN),
        Some(Resolved { canonical: "baz", kind: ResolvedKind::Deprecated })
    );
    assert_eq!(
        canonicalize("b", KNOWN),
        Some(Resolved { canonical: "baz", kind: ResolvedKind::Hidden })
    );
    assert_eq!(canonicalize("nope", KNOWN), None);
}

#[test]
fn empty_tokens_skipped() {
    let s = run(&["", "foo,,bar,", " , foo "]).unwrap();
    assert_eq!(s, HashSet::from(["foo", "bar"]));
}

#[test]
fn unknown_token_errors() {
    let mut set = HashSet::new();
    let err = apply("foo,nope", KNOWN, &mut set).unwrap_err();
    assert_eq!(err, UnknownToken("nope".into()));
    // partial application is observable: foo got added before the error.
    assert!(set.contains("foo"));
}

#[test]
fn unknown_negative_token_errors() {
    let mut set = HashSet::new();
    let err = apply("-nope", KNOWN, &mut set).unwrap_err();
    assert_eq!(err, UnknownToken("nope".into()));
}

#[test]
fn remove_absent_is_noop() {
    let s = run(&["-foo"]).unwrap();
    assert!(s.is_empty());
}

// Beyond the scenarios above: laws on concrete values and edge cases.

#[test]
fn one_occurrence_equals_two_in_order() {
    let joined = run(&["foo,bar,-foo,barre"]).unwrap();
    let split = run(&["foo,bar", "-foo,barre"]).unwrap();
    assert_eq!(joined, split);
    assert_eq!(joined, HashSet::from(["bar"]));
}

#[test]
fn last_token_wins() {
    assert_eq!(run(&["foo,-foo,foo"]).unwrap(), HashSet::from(["foo"]));
    assert_eq!(run(&["b,-baz-alt"]).unwrap(), HashSet::new());
    assert_eq!(run(&["-old-baz,baz"]).unwrap(), HashSet::from(["baz"]));
}

#[test]
fn only_canonicals_enter_the_set() {
    let s = run(&["barre,baz-alt,old-baz,b"]).unwrap();
    assert_eq!(s, HashSet::from(["bar", "baz"]));
}

#[test]
fn error_stops_at_first_unknown_and_keeps_earlier_effects() {
    let mut set: HashSet<&'static str> = HashSet::from(["baz"]);
    let err = apply("foo,-baz,what,bar", KNOWN, &mut set).unwrap_err();
    assert_eq!(err, UnknownToken("what".to_owned()));
    assert_eq!(set, HashSet::from(["foo"]));
}

#[test]
fn double_dash_keeps_one_dash_in_name() {
    let mut set = HashSet::new();
    let err = apply("--foo", KNOWN, &mut set).unwrap_err();
    assert_eq!(err, UnknownToken("-foo".to_owned()));
    assert!(set.is_empty());
}

#[test]
fn space_after_dash_is_part_of_name() {
    let mut set = HashSet::new();
    let err = apply("foo, - foo", KNOWN, &mut set).unwrap_err();
    assert_eq!(err, UnknownToken(" foo".to_owned()));
    assert_eq!(set, HashSet::from(["foo"]));
}

#[test]
fn unicode_white_space_is_trimmed() {
    let s = run(&["\u{3000}foo\t,\n bar \u{2003}"]).unwrap();
    assert_eq!(s, HashSet::from(["foo", "bar"]));
}

#[test]
fn non_white_space_is_not_trimmed() {
    let mut set = HashSet::new();
    let err = apply("_foo", KNOWN, &mut set).unwrap_err();
    assert_eq!(err, UnknownToken("_foo".to_owned()));
}

#[test]
fn only_commas_and_spaces_change_nothing() {
    let mut set: HashSet<&'static str> = HashSet::from(["bar"]);
    apply(" ,\t, ,", KNOWN, &mut set).unwrap();
    assert_eq!(set, HashSet::from(["bar"]));
}

#[test]
fn lone_dash_is_unknown_empty_name() {
    let mut set = HashSet::new();
    let err = apply("foo,-", KNOWN, &mut set).unwrap_err();
    assert_eq!(err, UnknownToken(String::new()));
    assert_eq!(set, HashSet::from(["foo"]));
}

#[test]
fn deprecated_callbacks_fire_in_order_before_error() {
    let mut set = HashSet::new();
    let mut warnings: Vec<(String, &'static str)> = Vec::new();
    let err = apply_with_callback(
        " old-baz , -old-baz,barre, nope, old-baz",
        KNOWN,
        &mut set,
        |sp: &str, canon: &'static str| warnings.push((sp.to_owned(), canon)),
    )
    .unwrap_err();
    assert_eq!(err, UnknownToken("nope".to_owned()));
    assert_eq!(
        warnings,
        vec![("old-baz".to_owned(), "baz"), ("old-baz".to_owned(), "baz")]
    );
    assert_eq!(set, HashSet::from(["bar"]));
}

#[test]
fn apply_with_callback_matches_apply() {
    let mut a = HashSet::new();
    let mut b = HashSet::new();
    let ra = apply("foo,old-baz,-foo,b", KNOWN, &mut a);
    let rb = apply_with_callback("foo,old-baz,-foo,b", KNOWN, &mut b, |_: &str, _: &'static str| {});
    assert_eq!(ra, rb);
    assert_eq!(a, b);
}

#[test]
fn canonicalize_is_exact() {
    assert_eq!(canonicalize("Foo", KNOWN), None);
    assert_eq!(canonicalize(" foo", KNOWN), None);
    assert_eq!(canonicalize("", KNOWN), None);
    assert_eq!(canonicalize("foo", &[]), None);
}

#[test]
fn canonicalize_takes_first_match_in_table_order() {
    const DUP: &[KnownToken] = &[
        KnownToken {
            canonical: "one",
            aliases: &[Alias { spelling: "x", status: AliasStatus::Hidden }],
        },
        KnownToken { canonical: "x", aliases: &[] },
    ];
    assert_eq!(
        canonicalize("x", DUP),
        Some(Resolved { canonical: "one", kind: ResolvedKind::Hidden })
    );
}

#[test]
fn env_value_absent_changes_nothing() {
    let mut set: HashSet<&'static str> = HashSet::from(["foo"]);
    apply_env_value(None, KNOWN, &mut set, |_: &str, _: &'static str| {}).unwrap();
    assert_eq!(set, HashSet::from(["foo"]));
}

#[test]
fn env_value_empty_changes_nothing() {
    let mut set: HashSet<&'static str> = HashSet::new();
    apply_env_value(Some(""), KNOWN, &mut set, |_: &str, _: &'static str| {}).unwrap();
    assert!(set.is_empty());
}

#[test]
fn env_value_then_cli_can_remove() {
    let mut set: HashSet<&'static str> = HashSet::new();
    let mut deprecations: Vec<(String, &'static str)> = Vec::new();
    apply_env_value(Some("foo,old-baz"), KNOWN, &mut set, |sp: &str, canon: &'static str| {
        deprecations.push((sp.to_owned(), canon))
    })
    .unwrap();
    apply("-foo", KNOWN, &mut set).unwrap();
    assert_eq!(set, HashSet::from(["baz"]));
    assert_eq!(deprecations, vec![("old-baz".to_owned(), "baz")]);
}

#[test]
fn env_value_unknown_token_errors() {
    let mut set: HashSet<&'static str> = HashSet::new();
    let err = apply_env_value(Some("foo,nope"), KNOWN, &mut set, |_: &str, _: &'static str| {})
        .unwrap_err();
    assert_eq!(err, UnknownToken("nope".into()));
}

#[test]
fn apply_env_resolves_aliases() {
    let mut set: HashSet<&'static str> = HashSet::new();
    let mut deprecations: Vec<(String, &'static str)> = Vec::new();
    apply_env_value(Some("barre,old-baz"), KNOWN, &mut set, |sp: &str, canon: &'static str| {
        deprecations.push((sp.to_owned(), canon))
    })
    .unwrap();
    assert_eq!(set, HashSet::from(["bar", "baz"]));
    assert_eq!(deprecations, vec![("old-baz".to_owned(), "baz")]);
}

#[test]
fn removal_through_deprecated_alias_also_calls_back() {
    let mut set = HashSet::new();
    let mut warnings: Vec<(String, &'static str)> = Vec::new();
    apply_with_callback("old-baz,-old-baz", KNOWN, &mut set, |sp: &str, c: &'static str| {
        warnings.push((sp.to_owned(), c))
    })
    .unwrap();
    assert!(set.is_empty());
    assert_eq!(
        warnings,
        vec![("old-baz".to_owned(), "baz"), ("old-baz".to_owned(), "baz")]
    );
}

#[test]
fn joined_value_makes_the_calls_of_both_parts() {
    let mut calls_joined: Vec<(String, &'static str)> = Vec::new();
    let mut calls_split: Vec<(String, &'static str)> = Vec::new();
    let mut s1 = HashSet::new();
    let mut s2 = HashSet::new();
    apply_with_callback("old-baz,foo,-old-baz", KNOWN, &mut s1, |sp: &str, c: &'static str| {
        calls_joined.push((sp.to_owned(), c))
    })
    .unwrap();
    for part in ["old-baz,foo", "-old-baz"] {
        apply_with_callback(part, KNOWN, &mut s2, |sp: &str, c: &'static str| {
            calls_split.push((sp.to_owned(), c))
        })
        .unwrap();
    }
    assert_eq!(s1, s2);
    assert_eq!(calls_joined, calls_split);
}

#[test]
fn applying_twice_changes_nothing_more() {
    let mut set: HashSet<&'static str> = HashSet::from(["bar"]);
    let mut first: Vec<(String, &'static str)> = Vec::new();
    let mut second: Vec<(String, &'static str)> = Vec::new();
    apply_with_callback("foo,-barre,old-baz", KNOWN, &mut set, |sp: &str, c: &'static str| {
        first.push((sp.to_owned(), c))
    })
    .unwrap();
    let after_first = set.clone();
    apply_with_callback("foo,-barre,old-baz", KNOWN, &mut set, |sp: &str, c: &'static str| {
        second.push((sp.to_owned(), c))
    })
    .unwrap();
    assert_eq!(set, after_first);
    assert_eq!(first, second);
}

#[test]
fn no_call_after_unknown_name() {
    let mut set = HashSet::new();
    let mut fired = 0;
    let err = apply_with_callback("nope,old-baz", KNOWN, &mut set, |_: &str, _: &'static str| {
        fired += 1
    })
    .unwrap_err();
    assert_eq!(err, UnknownToken("nope".to_owned()));
    assert_eq!(fired, 0);
    assert!(set.is_empty());
}

#[test]
fn env_value_absent_calls_nothing() {
    let mut set: HashSet<&'static str> = HashSet::new();
    let mut fired = false;
    apply_env_value(None, KNOWN, &mut set, |_: &str, _: &'static str| fired = true).unwrap();
    assert!(!fired);
}

#[test]
fn new_set_is_empty_and_usable() {
    let mut set = polyflag::new_set();
    assert!(set.is_empty());
    apply("old-baz", KNOWN, &mut set).unwrap();
    assert_eq!(set, HashSet::from(["baz"]));
}

#[test]
fn holds_tells_what_the_set_holds() {
    let mut set = polyflag::new_set();
    apply("barre,-foo", KNOWN, &mut set).unwrap();
    assert!(polyflag::holds(&set, "bar"));
    assert!(!polyflag::holds(&set, "barre"));
    assert!(!polyflag::holds(&set, "foo"));
}
