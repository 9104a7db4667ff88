use std::collections::HashSet;

use polyflag::{
    apply, apply_env_value, apply_with_callback, canonicalize, validate_known, Alias, AliasStatus,
    KnownToken, Resolved, ResolvedKind, UnknownToken,
};

const QUIRKS: &[KnownToken] = &[
    KnownToken { canonical: "ascii", aliases: &[] },
    KnownToken {
        canonical: "nocolor",
        aliases: &[Alias { spelling: "no-color", status: AliasStatus::Alternative }],
    },
    KnownToken {
        canonical: "noanimations",
        aliases: &[
            Alias { spelling: "no-animations", status: AliasStatus::Alternative },
            Alias { spelling: "no_animations", status: AliasStatus::Deprecated },
            Alias { spelling: "noanim", status: AliasStatus::Hidden },
        ],
    },
];

const FOO_BAR_BAZ: &[KnownToken] = &[
    KnownToken { canonical: "foo", aliases: &[] },
    KnownToken {
        canonical: "bar",
        aliases: &[Alias { spelling: "barre", status: AliasStatus::Alternative }],
    },
    KnownToken {
        canonical: "baz",
        aliases: &[
            Alias { spelling: "baz-alt", status: AliasStatus::Alternative },
            Alias { spelling: "old-baz", status: AliasStatus::Deprecated },
        ],
    },
];

#[test]
fn usage_example_layers_occurrences() {
    let mut set: HashSet<&'static str> = HashSet::new();
    apply("foo,barre", FOO_BAR_BAZ, &mut set).unwrap();
    apply("baz", FOO_BAR_BAZ, &mut set).unwrap();
    apply("bar,-foo", FOO_BAR_BAZ, &mut set).unwrap();
    assert!(set.contains("bar") && set.contains("baz"));
    assert!(!set.contains("foo"));
    assert!(!set.contains("barre"));
}

#[test]
fn alias_example_stores_canonicals_only() {
    let mut set = HashSet::new();
    apply("no-color,no_animations", QUIRKS, &mut set).unwrap();
    assert!(set.contains("nocolor"));
    assert!(set.contains("noanimations"));
    assert_eq!(set.len(), 2);
}

#[test]
fn add_by_canonical_remove_by_alias() {
    let mut set = HashSet::new();
    apply("nocolor", QUIRKS, &mut set).unwrap();
    apply("-no-color", QUIRKS, &mut set).unwrap();
    assert!(!set.contains("nocolor"));
}

#[test]
fn kitchensink_env_then_cli() {
    let mut set: HashSet<&'static str> = HashSet::new();
    apply_env_value(Some("foo"), FOO_BAR_BAZ, &mut set, |_: &str, _: &'static str| {}).unwrap();
    apply("bar", FOO_BAR_BAZ, &mut set).unwrap();
    apply("-foo", FOO_BAR_BAZ, &mut set).unwrap();
    apply("baz", FOO_BAR_BAZ, &mut set).unwrap();
    assert_eq!(set, HashSet::from(["bar", "baz"]));
}

#[test]
fn demo_layering() {
    let mut set: HashSet<&'static str> = HashSet::new();
    for occ in ["ascii,no-color", "noanim", "-ascii"] {
        apply(occ, QUIRKS, &mut set).unwrap();
    }
    assert_eq!(set, HashSet::from(["nocolor", "noanimations"]));
}

#[test]
fn demo_deprecated_callback() {
    let mut set = HashSet::new();
    let mut warnings: Vec<(String, &'static str)> = Vec::new();
    apply_with_callback("no_animations,nocolor", QUIRKS, &mut set, |sp: &str, c: &'static str| {
        warnings.push((sp.to_owned(), c))
    })
    .unwrap();
    assert_eq!(warnings, vec![("no_animations".to_owned(), "noanimations")]);
    assert_eq!(set, HashSet::from(["noanimations", "nocolor"]));
}

#[test]
fn demo_canonicalize_classification() {
    assert_eq!(
        canonicalize("ascii", QUIRKS),
        Some(Resolved { canonical: "ascii", kind: ResolvedKind::Canonical })
    );
    assert_eq!(
        canonicalize("no-color", QUIRKS),
        Some(Resolved { canonical: "nocolor", kind: ResolvedKind::Alternative })
    );
    assert_eq!(
        canonicalize("no_animations", QUIRKS),
        Some(Resolved { canonical: "noanimations", kind: ResolvedKind::Deprecated })
    );
    assert_eq!(
        canonicalize("noanim", QUIRKS),
        Some(Resolved { canonical: "noanimations", kind: ResolvedKind::Hidden })
    );
    assert_eq!(canonicalize("bogus", QUIRKS), None);
}

#[test]
fn demo_unknown_token_keeps_partial_state() {
    let mut set = HashSet::new();
    let err = apply("ascii,bogus,nocolor", QUIRKS, &mut set).unwrap_err();
    assert_eq!(err, UnknownToken("bogus".to_owned()));
    assert_eq!(set, HashSet::from(["ascii"]));
}

#[test]
fn example_tables_are_valid() {
    assert_eq!(validate_known(QUIRKS), Ok(()));
    assert_eq!(validate_known(FOO_BAR_BAZ), Ok(()));
}

