//! The name of the environment variable that mirrors a flag.
use vstd::prelude::*;

verus! {

/// `c` with an ASCII lower-case letter mapped to its upper-case form (what
/// `char::to_ascii_uppercase` gives).
pub open spec fn ascii_upper(c: char) -> char {
    if 'a' <= c <= 'z' {
        ((c as u32) - 32) as char
    } else {
        c
    }
}

/// A flag character in the variable name: `-` becomes `_`, letters are
/// upper-cased.
pub open spec fn flag_char(c: char) -> char {
    if c == '-' {
        '_'
    } else {
        ascii_upper(c)
    }
}

/// `{PREFIX}_{FLAG}`: the prefix upper-cased, then `_`, then the flag
/// upper-cased with `-` rewritten to `_`.
pub open spec fn env_name(prefix: Seq<char>, flag: Seq<char>) -> Seq<char> {
    prefix.map_values(|c: char| ascii_upper(c)) + seq!['_'] + flag.map_values(
        |c: char| flag_char(c),
    )
}

fn to_ascii_upper(c: char) -> (r: char)
    ensures
        r == ascii_upper(c),
{
    if 'a' <= c && c <= 'z' {
        ((c as u8) - 32) as char
    } else {
        c
    }
}

/// Calls `String::push`, which appends `c` to the end of `s`.
#[verifier::external_body]
fn push_char(s: &mut String, c: char)
    ensures
        final(s)@ == old(s)@.push(c),
{
    s.push(c);
}

/// Compute the env var name corresponding to a flag: `prefix` upper-cased,
/// `_`, then `flag` upper-cased with `-` rewritten to `_`.
pub fn env_var_name(prefix: &str, flag: &str) -> (r: String)
    ensures
        r@ == env_name(prefix@, flag@),
{
    let mut out = String::new();
    for c in it: prefix.chars()
        invariant
            out@ == it.seq().take(it.index() as int).map_values(|c: char| ascii_upper(c)),
    {
        let ghost before = it.seq().take(it.index() as int);
        push_char(&mut out, to_ascii_upper(c));
        assert(it.seq().take(it.index() + 1) =~= before.push(c));
        assert(out@ =~= before.push(c).map_values(|c: char| ascii_upper(c)));
    }
    push_char(&mut out, '_');
    let ghost head = out@;
    for c in it: flag.chars()
        invariant
            out@ == head + it.seq().take(it.index() as int).map_values(|c: char| flag_char(c)),
    {
        let ghost before = it.seq().take(it.index() as int);
        let u = if c == '-' {
            '_'
        } else {
            to_ascii_upper(c)
        };
        push_char(&mut out, u);
        assert(it.seq().take(it.index() + 1) =~= before.push(c));
        assert(out@ =~= head + before.push(c).map_values(|c: char| flag_char(c)));
    }
    out
}

} // verus!
