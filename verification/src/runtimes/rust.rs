//! Rust: the version `rustc --version` prints and versions in the names
//! of toolchain directories.
use vstd::prelude::*;
use crate::activation::Platform;
use crate::platform::{file_name, file_name_spec};
use crate::runtimes::java::{extract_spec, extract_version};
use crate::runtimes::python::full_version;
use crate::text::{
    chars_of, count_of, lines, lines_of, only_digits_and_dots, seqs_of, split, split_at_char, string_of,
    strip_prefix, without_prefix, lemma_split_nonempty,
};

verus! {

/// The Rust adapter.
pub struct RustAdapter;

/// The version on the first line of `rustc --version`
/// (`rustc 1.88.0 (a1c84a5e0 2025-07-24)`): the piece after `rustc ` up
/// to the next space, when it is a full version.
pub open spec fn rustc_version_spec(output: Seq<char>) -> Option<Seq<char>> {
    let ls = lines(output);
    if ls.len() == 0 {
        None
    } else {
        match strip_prefix(ls[0], "rustc "@) {
            None => None,
            Some(rest) => {
                let tok = split(rest, ' ')[0];
                if full_version(tok) {
                    Some(tok)
                } else {
                    None
                }
            },
        }
    }
}

/// The version `rustc --version` printed.
pub fn parse_rustc_version(output: &str) -> (r: Option<String>)
    ensures
        match rustc_version_spec(output@) {
            Some(x) => r matches Some(s) && s@ == x,
            None => r is None,
        },
{
    let ls = lines_of(chars_of(output).as_slice());
    if ls.len() == 0 {
        return None;
    }
    assert(seqs_of(ls@)[0] == ls@[0]@);
    let prefix = chars_of("rustc ");
    match without_prefix(ls[0].as_slice(), prefix.as_slice()) {
        None => None,
        Some(rest) => {
            let ps = split_at_char(rest.as_slice(), ' ');
            proof {
                lemma_split_nonempty(rest@, ' ');
            }
            assert(seqs_of(ps@)[0] == ps@[0]@);
            let tok = &ps[0];
            if count_of(tok.as_slice(), '.') >= 2 && only_digits_and_dots(tok.as_slice()) {
                Some(string_of(tok.as_slice()))
            } else {
                None
            }
        },
    }
}

/// The version in the name of a toolchain directory
/// (`1.88.0-aarch64-apple-darwin`): the piece before the first `-` when it
/// is a full version, else a dotted version anywhere in it.
pub open spec fn infer_spec(name: Seq<char>) -> Option<Seq<char>> {
    let head = split(name, '-')[0];
    if full_version(head) {
        Some(head)
    } else {
        extract_spec(name)
    }
}

/// The version in the name of a toolchain directory.
pub fn infer_from_name(name: &str) -> (r: Option<String>)
    ensures
        match infer_spec(name@) {
            Some(x) => r matches Some(s) && s@ == x,
            None => r is None,
        },
{
    let n = chars_of(name);
    let ps = split_at_char(n.as_slice(), '-');
    proof {
        lemma_split_nonempty(n@, '-');
    }
    assert(seqs_of(ps@)[0] == ps@[0]@);
    let head = &ps[0];
    if count_of(head.as_slice(), '.') >= 2 && only_digits_and_dots(head.as_slice()) {
        return Some(string_of(head.as_slice()));
    }
    extract_version(name)
}

/// The version in the name of the directory `dir`.
pub fn infer_from_dir_name(platform: Platform, dir: &str) -> (r: Option<String>)
    ensures
        match file_name_spec(platform, dir@) {
            Some(n) => match infer_spec(n) {
                Some(x) => r matches Some(s) && s@ == x,
                None => r is None,
            },
            None => r is None,
        },
{
    match file_name(platform, dir) {
        Some(n) => infer_from_name(n.as_str()),
        None => None,
    }
}

} // verus!
