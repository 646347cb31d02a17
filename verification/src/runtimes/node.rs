//! Node.js: versions printed by `node -v` and versions in directory names
//! (nvm, fnm, Homebrew).
use vstd::prelude::*;
use crate::activation::Platform;
use crate::platform::{file_name, file_name_spec};
use crate::runtimes::java::{extract_spec, extract_version};
use crate::text::{all_ascii_digits, all_digits, chars_of, is_ascii_digit, is_digit, owned, string_of, strip_prefix, trim, trim_chars, without_prefix};

verus! {

/// The Node.js adapter.
pub struct NodeAdapter;

/// `v` trimmed, without one leading `v`, when something is left.
pub open spec fn trim_v_spec(v: Seq<char>) -> Option<Seq<char>> {
    let t = trim(v);
    let u = if t.len() > 0 && t[0] == 'v' {
        t.drop_first()
    } else {
        t
    };
    if u.len() == 0 {
        None
    } else {
        Some(u)
    }
}

/// A version without its `v` (`v22.11.0` gives `22.11.0`).
pub fn trim_v_prefix(v: &str) -> (r: Option<String>)
    ensures
        match trim_v_spec(v@) {
            Some(x) => r matches Some(s) && s@ == x,
            None => r is None,
        },
{
    let t = trim_chars(chars_of(v).as_slice());
    let u = if t.len() > 0 && t[0] == 'v' {
        crate::text::slice(t.as_slice(), 1, t.len())
    } else {
        crate::text::slice(t.as_slice(), 0, t.len())
    };
    assert(t@.subrange(1, t@.len() as int) =~= t@.drop_first());
    assert(t@.subrange(0, t@.len() as int) =~= t@);
    if u.len() == 0 {
        None
    } else {
        Some(string_of(u.as_slice()))
    }
}

/// The version in the name of a Node.js directory: `vX.Y.Z` (nvm, fnm),
/// `node@N` (Homebrew), else a dotted version anywhere in it.  A name that
/// is just `v` names none.
pub open spec fn infer_spec(name: Seq<char>) -> Option<Seq<char>> {
    if name.len() > 0 && name[0] == 'v' && name.len() == 1 {
        None
    } else if name.len() > 1 && name[0] == 'v' && is_digit(name[1]) {
        Some(name.drop_first())
    } else {
        match strip_prefix(name, "node@"@) {
            Some(rest) if rest.len() > 0 && all_digits(rest) => Some(rest),
            _ => extract_spec(name),
        }
    }
}

/// The version in the name of a Node.js directory.
pub fn infer_from_name(name: &str) -> (r: Option<String>)
    ensures
        match infer_spec(name@) {
            Some(x) => r matches Some(s) && s@ == x,
            None => r is None,
        },
{
    let n = chars_of(name);
    if n.len() == 1 && n[0] == 'v' {
        return None;
    }
    if n.len() > 1 && n[0] == 'v' && is_ascii_digit(n[1]) {
        let rest = crate::text::slice(n.as_slice(), 1, n.len());
        assert(rest@ =~= n@.drop_first());
        return Some(string_of(rest.as_slice()));
    }
    let prefix = chars_of("node@");
    match without_prefix(n.as_slice(), prefix.as_slice()) {
        Some(rest) => {
            if rest.len() > 0 && all_ascii_digits(rest.as_slice()) {
                return Some(string_of(rest.as_slice()));
            }
        },
        None => {},
    }
    extract_version(name)
}

/// The version in the name of the directory `dir`.
pub fn infer_from_dir_name(platform: Platform, dir: &str) -> (r: Option<String>)
    ensures
        match file_name_spec(platform, dir@) {
            Some(n) => match infer_spec(n) {
                Some(x) => r matches Some(s) && s@ == x,
                None => r is None,
            },
            None => r is None,
        },
{
    match file_name(platform, dir) {
        Some(n) => infer_from_name(n.as_str()),
        None => None,
    }
}

} // verus!
