# polyflag

Repeatable comma-separated set-style flags (`--quirks=foo,-bar`), verified
with Verus.

- `src/text.rs`: splitting a value on `,`, Unicode white-space trimming,
  exact spelling comparison.
- `src/table.rs`: the known-token table, how a spelling resolves in it
  (`canonicalize`), table validation (`validate_known`, which reports the
  first empty or repeated spelling), and `check_known`, whose `requires`
  asks callers to prove their table valid.
- `src/apply.rs`: applying one occurrence to a `HashSet<&'static str>` of
  canonicals (`apply`, `apply_with_callback`, `apply_env_value`).
- `src/help.rs`: the table listing for help text (`format_known_for_help`).
- `src/env.rs`: the environment variable name that mirrors a flag.
- `src/laws.rs`: properties of the whole library (lookup in valid tables and its
  independence of table order, composition of occurrences, applying twice,
  only canonicals in the set, last token wins).
- `app/lib.rs`: reading the environment, the `token!` macro, a panicking
  startup check, and an error type with `Display`.

`check_known` stands for the debug-build startup assertion: verified code
cannot panic, so the tables on which it would panic are ruled out by its
precondition, and `validate_known` reports them instead. That a release
build accepts any table cannot be stated by the same function, since build
configuration is not part of the model; `app/lib.rs` keeps the original
behaviour (a panic in debug builds, nothing in release builds) on top of
`validate_known`, with the `debug_check_known!` macro as its short form.
