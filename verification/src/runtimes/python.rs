//! Python: the version `python3 --version` prints and versions in
//! directory names (pyenv, Homebrew).
use vstd::prelude::*;
use crate::activation::Platform;
use crate::platform::{file_name, file_name_spec};
use crate::runtimes::java::{extract_spec, extract_version};
use crate::text::{
    chars_of, count_char, count_of, digits_and_dots, lines, lines_of, only_digits_and_dots, seqs_of, string_of,
    strip_prefix, trim, trim_chars, without_prefix,
};

verus! {

/// The Python adapter.
pub struct PythonAdapter;

/// The length of the start of `s` before its first `+`, space or `-`.
pub open spec fn token_len(s: Seq<char>) -> nat
    decreases s.len(),
{
    if s.len() > 0 && s[0] != '+' && s[0] != ' ' && s[0] != '-' {
        1 + token_len(s.drop_first())
    } else {
        0
    }
}

/// A version of at least three dotted fields made of digits and dots.
pub open spec fn full_version(t: Seq<char>) -> bool {
    count_char(t, '.') >= 2 && digits_and_dots(t)
}

/// The version on the first line of `python3 --version`
/// (`Python 3.13.1`): after `Python `, trimmed, up to a `+`, space or `-`,
/// when it is a full version.
pub open spec fn python_version_spec(output: Seq<char>) -> Option<Seq<char>> {
    let ls = lines(output);
    if ls.len() == 0 {
        None
    } else {
        match strip_prefix(ls[0], "Python "@) {
            None => None,
            Some(rest) => {
                let t = trim(rest);
                let tok = t.take(token_len(t) as int);
                if full_version(tok) {
                    Some(tok)
                } else {
                    None
                }
            },
        }
    }
}

/// The start of `t` before its first `+`, space or `-`.
fn token_of(t: &Vec<char>) -> (r: Vec<char>)
    ensures
        r@ == t@.take(token_len(t@) as int),
{
    let mut j: usize = 0;
    assert(t@.skip(0) =~= t@);
    while j < t.len() && t[j] != '+' && t[j] != ' ' && t[j] != '-'
        invariant
            j <= t@.len(),
            token_len(t@) == j + token_len(t@.skip(j as int)),
        decreases t@.len() - j,
    {
        assert(t@.skip(j as int)[0] == t@[j as int]);
        assert(t@.skip(j as int).drop_first() =~= t@.skip(j + 1));
        j = j + 1;
    }
    if j < t.len() {
        assert(t@.skip(j as int)[0] == t@[j as int]);
    }
    crate::text::slice(t.as_slice(), 0, j)
}

/// The version `python3 --version` printed.
pub fn parse_python_version(output: &str) -> (r: Option<String>)
    ensures
        match python_version_spec(output@) {
            Some(x) => r matches Some(s) && s@ == x,
            None => r is None,
        },
{
    let ls = lines_of(chars_of(output).as_slice());
    if ls.len() == 0 {
        return None;
    }
    assert(seqs_of(ls@)[0] == ls@[0]@);
    let prefix = chars_of("Python ");
    match without_prefix(ls[0].as_slice(), prefix.as_slice()) {
        None => None,
        Some(rest) => {
            let t = trim_chars(rest.as_slice());
            let tok = token_of(&t);
            if count_of(tok.as_slice(), '.') >= 2 && only_digits_and_dots(tok.as_slice()) {
                Some(string_of(tok.as_slice()))
            } else {
                None
            }
        },
    }
}

/// The version in the name of a Python directory: the name itself when a
/// full version (pyenv), `python@X.Y` (Homebrew), else a dotted version
/// anywhere in it.
pub open spec fn infer_spec(name: Seq<char>) -> Option<Seq<char>> {
    if full_version(name) {
        Some(name)
    } else {
        match strip_prefix(name, "python@"@) {
            Some(rest) if rest.len() > 0 && digits_and_dots(rest) => Some(rest),
            _ => extract_spec(name),
        }
    }
}

/// The version in the name of a Python directory.
pub fn infer_from_name(name: &str) -> (r: Option<String>)
    ensures
        match infer_spec(name@) {
            Some(x) => r matches Some(s) && s@ == x,
            None => r is None,
        },
{
    let n = chars_of(name);
    if count_of(n.as_slice(), '.') >= 2 && only_digits_and_dots(n.as_slice()) {
        return Some(string_of(n.as_slice()));
    }
    let prefix = chars_of("python@");
    match without_prefix(n.as_slice(), prefix.as_slice()) {
        Some(rest) => {
            if rest.len() > 0 && only_digits_and_dots(rest.as_slice()) {
                return Some(string_of(rest.as_slice()));
            }
        },
        None => {},
    }
    extract_version(name)
}

/// The version in the name of the directory `dir`.
pub fn infer_from_dir_name(platform: Platform, dir: &str) -> (r: Option<String>)
    ensures
        match file_name_spec(platform, dir@) {
            Some(n) => match infer_spec(n) {
                Some(x) => r matches Some(s) && s@ == x,
                None => r is None,
            },
            None => r is None,
        },
{
    match file_name(platform, dir) {
        Some(n) => infer_from_name(n.as_str()),
        None => None,
    }
}

} // verus!
