use polyflag::{check_known, env_var_name, validate_known, Alias, AliasStatus, KnownTableError, KnownToken};

const KNOWN: &[KnownToken] = &[
    KnownToken { canonical: "foo", aliases: &[] },
    KnownToken {
        canonical: "bar",
        aliases: &[Alias { spelling: "barre", status: AliasStatus::Alternative }],
    },
    KnownToken {
        canonical: "baz",
        aliases: &[
            Alias { spelling: "baz-alt", status: AliasStatus::Alternative },
            Alias { spelling: "old-baz", status: AliasStatus::Deprecated },
            Alias { spelling: "b", status: AliasStatus::Hidden },
        ],
    },
];

#[test]
fn check_known_accepts_valid() {
    check_known(KNOWN);
}

#[test]
fn validate_known_accepts_valid() {
    assert_eq!(validate_known(KNOWN), Ok(()));
}

#[test]
fn env_var_name_format() {
    assert_eq!(env_var_name("edit", "quirks"), "EDIT_QUIRKS");
    assert_eq!(env_var_name("app", "allow-create"), "APP_ALLOW_CREATE");
    assert_eq!(env_var_name("MIXED", "flag"), "MIXED_FLAG");
}

// Beyond the scenarios above.

#[test]
fn validate_known_reports_canonical_collision() {
    const BAD: &[KnownToken] = &[
        KnownToken { canonical: "foo", aliases: &[] },
        KnownToken { canonical: "foo", aliases: &[] },
    ];
    assert_eq!(validate_known(BAD), Err(KnownTableError::DuplicateCanonical("foo")));
}

#[test]
fn validate_known_reports_alias_canonical_collision() {
    const BAD: &[KnownToken] = &[
        KnownToken {
            canonical: "foo",
            aliases: &[Alias { spelling: "bar", status: AliasStatus::Alternative }],
        },
        KnownToken { canonical: "bar", aliases: &[] },
    ];
    assert_eq!(validate_known(BAD), Err(KnownTableError::DuplicateCanonical("bar")));
}

#[test]
fn validate_known_reports_alias_alias_collision() {
    const BAD: &[KnownToken] = &[
        KnownToken {
            canonical: "foo",
            aliases: &[Alias { spelling: "x", status: AliasStatus::Alternative }],
        },
        KnownToken {
            canonical: "bar",
            aliases: &[Alias { spelling: "x", status: AliasStatus::Alternative }],
        },
    ];
    assert_eq!(validate_known(BAD), Err(KnownTableError::DuplicateAlias("x")));
}

#[test]
fn validate_known_reports_empty_canonical() {
    const BAD: &[KnownToken] = &[KnownToken { canonical: "", aliases: &[] }];
    assert_eq!(validate_known(BAD), Err(KnownTableError::EmptyCanonical));
}

#[test]
fn validate_known_reports_empty_alias() {
    const BAD: &[KnownToken] = &[KnownToken {
        canonical: "foo",
        aliases: &[Alias { spelling: "", status: AliasStatus::Alternative }],
    }];
    assert_eq!(validate_known(BAD), Err(KnownTableError::EmptyAlias("foo")));
}

#[test]
fn validate_known_reports_first_problem_in_table_order() {
    const BAD: &[KnownToken] = &[
        KnownToken {
            canonical: "foo",
            aliases: &[
                Alias { spelling: "foo", status: AliasStatus::Hidden },
                Alias { spelling: "", status: AliasStatus::Hidden },
            ],
        },
        KnownToken { canonical: "", aliases: &[] },
    ];
    assert_eq!(validate_known(BAD), Err(KnownTableError::DuplicateAlias("foo")));
}

#[test]
fn validate_known_accepts_empty_table() {
    assert_eq!(validate_known(&[]), Ok(()));
}

#[test]
fn constructors_build_tokens_and_aliases() {
    let t = KnownToken::new("ascii");
    assert_eq!(t.canonical, "ascii");
    assert!(t.aliases.is_empty());
    let a = Alias::alt("no-color");
    assert_eq!((a.spelling, a.status), ("no-color", AliasStatus::Alternative));
    let d = Alias::deprecated("no_animations");
    assert_eq!((d.spelling, d.status), ("no_animations", AliasStatus::Deprecated));
    let h = Alias::hidden("noanim");
    assert_eq!((h.spelling, h.status), ("noanim", AliasStatus::Hidden));
}

#[test]
fn env_var_name_edge_cases() {
    assert_eq!(env_var_name("", ""), "_");
    assert_eq!(env_var_name("a-b", "x-y-z"), "A-B_X_Y_Z");
    assert_eq!(env_var_name("app2", "über_9"), "APP2_üBER_9");
    assert_eq!(env_var_name("zz", "az"), "ZZ_AZ");
}

#[test]
fn white_space_matches_std_for_every_char() {
    for u in 0..=0x10FFFFu32 {
        if let Some(c) = char::from_u32(u) {
            assert_eq!(polyflag::text::is_white_space(c), c.is_whitespace(), "{:?}", c);
        }
    }
}

#[test]
fn help_listing_leaves_out_hidden_aliases() {
    assert_eq!(
        polyflag::format_known_for_help(KNOWN),
        "foo, bar (barre), baz (baz-alt, old-baz)"
    );
}

#[test]
fn help_listing_edge_cases() {
    assert_eq!(polyflag::format_known_for_help(&[]), "");
    const ONLY_HIDDEN: &[KnownToken] = &[
        KnownToken {
            canonical: "x",
            aliases: &[Alias { spelling: "y", status: AliasStatus::Hidden }],
        },
        KnownToken {
            canonical: "z",
            aliases: &[
                Alias { spelling: "h", status: AliasStatus::Hidden },
                Alias { spelling: "d", status: AliasStatus::Deprecated },
            ],
        },
    ];
    assert_eq!(polyflag::format_known_for_help(ONLY_HIDDEN), "x, z (d)");
}
