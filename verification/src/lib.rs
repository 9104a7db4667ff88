//! Repeatable comma-separated set-style flags.
//!
//! Given a fixed table of known tokens, one occurrence of a flag's value
//! (`"foo,-bar"`) is applied to a set of canonical spellings: a bare name
//! inserts its canonical, a `-` prefix removes it, an unknown name is an
//! error. Aliases resolve to their token's canonical.
use vstd::prelude::*;

pub mod apply;
pub mod env;
pub mod help;
pub mod laws;
pub mod spec_laws;
pub mod table;
pub mod text;

pub use apply::{apply, apply_env_value, apply_with_callback, holds, new_set, UnknownToken};
pub use env::env_var_name;
pub use help::format_known_for_help;
pub use table::{
    canonicalize, check_known, validate_known, Alias, AliasStatus, KnownTableError, KnownToken, Resolved,
    ResolvedKind,
};

verus! {

} // verus!
