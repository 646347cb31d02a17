//! Maven: the version `mvn -v` prints and versions in directory names.
use vstd::prelude::*;
use crate::activation::Platform;
use crate::platform::{file_name, file_name_spec};
use crate::runtimes::java::{extract_spec, extract_version};
use crate::text::{chars_of, is_ascii_digit, is_digit, lines, lines_of, seqs_of, string_of, trim, trim_chars, words, words_of};

verus! {

/// The Maven adapter.
pub struct MavenAdapter;

/// The version on the first line of `mvn -v` (`Apache Maven 3.9.16 (…)`):
/// its third word, when it starts with a digit.
pub open spec fn mvn_version_spec(output: Seq<char>) -> Option<Seq<char>> {
    let ls = lines(output);
    if ls.len() == 0 {
        None
    } else {
        let w = words(ls[0]);
        if w.len() > 2 && trim(w[2]).len() > 0 && is_digit(trim(w[2])[0]) {
            Some(trim(w[2]))
        } else {
            None
        }
    }
}

/// The version `mvn -v` printed.
pub fn parse_mvn_version(output: &str) -> (r: Option<String>)
    ensures
        match mvn_version_spec(output@) {
            Some(x) => r matches Some(s) && s@ == x,
            None => r is None,
        },
{
    let ls = lines_of(chars_of(output).as_slice());
    if ls.len() == 0 {
        return None;
    }
    assert(seqs_of(ls@)[0] == ls@[0]@);
    let w = words_of(ls[0].as_slice());
    if w.len() > 2 {
        assert(seqs_of(w@)[2] == w@[2]@);
        let t = trim_chars(w[2].as_slice());
        if t.len() > 0 && is_ascii_digit(t[0]) {
            return Some(string_of(t.as_slice()));
        }
    }
    None
}

/// The version in the name of a Maven directory (`apache-maven-3.9.16`).
pub open spec fn infer_spec(name: Seq<char>) -> Option<Seq<char>> {
    extract_spec(name)
}

/// The version in the name of the directory `dir`.
pub fn infer_from_dir_name(platform: Platform, dir: &str) -> (r: Option<String>)
    ensures
        match file_name_spec(platform, dir@) {
            Some(n) => match infer_spec(n) {
                Some(x) => r matches Some(s) && s@ == x,
                None => r is None,
            },
            None => r is None,
        },
{
    match file_name(platform, dir) {
        Some(n) => extract_version(n.as_str()),
        None => None,
    }
}

} // verus!
