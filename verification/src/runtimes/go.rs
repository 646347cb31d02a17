//! Go: the `VERSION` file of a GOROOT, versions in directory names, and
//! the version `go version` prints.
use vstd::prelude::*;
use crate::activation::Platform;
use crate::platform::{file_name, file_name_spec};
use crate::runtimes::java::{extract_spec, extract_version};
use crate::text::{chars_of, is_ascii_digit, is_digit, seqs_of, string_of, strip_prefix, trim, trim_chars, without_prefix, words, words_of};

verus! {

/// The Go adapter.
pub struct GoAdapter;

/// The version a `VERSION` file holds (`go1.23.4` gives `1.23.4`).
pub open spec fn version_file_spec(content: Seq<char>) -> Option<Seq<char>> {
    match strip_prefix(trim(content), "go"@) {
        Some(r) => if r.len() > 0 {
            Some(r)
        } else {
            None
        },
        None => None,
    }
}

/// The version a `VERSION` file holds.
pub fn version_from_file(content: &str) -> (r: Option<String>)
    ensures
        match version_file_spec(content@) {
            Some(x) => r matches Some(s) && s@ == x,
            None => r is None,
        },
{
    let t = trim_chars(chars_of(content).as_slice());
    let go = chars_of("go");
    match without_prefix(t.as_slice(), go.as_slice()) {
        Some(rest) => if rest.len() > 0 {
            Some(string_of(rest.as_slice()))
        } else {
            None
        },
        None => None,
    }
}

/// The version in the name of a Go directory: `go1.23.4`, `go@1.23`, else
/// a dotted version anywhere in it.  A name that is just `go` or `go@`
/// names none.
pub open spec fn infer_spec(name: Seq<char>) -> Option<Seq<char>> {
    match strip_prefix(name, "go"@) {
        Some(rest) => {
            let r2 = if rest.len() > 0 && rest[0] == '@' {
                rest.drop_first()
            } else {
                rest
            };
            if r2.len() == 0 {
                None
            } else if is_digit(r2[0]) {
                Some(r2)
            } else {
                extract_spec(name)
            }
        },
        None => extract_spec(name),
    }
}

/// The version in the name of a Go directory.
pub fn infer_from_name(name: &str) -> (r: Option<String>)
    ensures
        match infer_spec(name@) {
            Some(x) => r matches Some(s) && s@ == x,
            None => r is None,
        },
{
    let n = chars_of(name);
    let go = chars_of("go");
    match without_prefix(n.as_slice(), go.as_slice()) {
        Some(rest) => {
            let r2 = if rest.len() > 0 && rest[0] == '@' {
                crate::text::slice(rest.as_slice(), 1, rest.len())
            } else {
                crate::text::slice(rest.as_slice(), 0, rest.len())
            };
            assert(rest@.subrange(1, rest@.len() as int) =~= rest@.drop_first());
            assert(rest@.subrange(0, rest@.len() as int) =~= rest@);
            if r2.len() == 0 {
                None
            } else if is_ascii_digit(r2[0]) {
                Some(string_of(r2.as_slice()))
            } else {
                extract_version(name)
            }
        },
        None => extract_version(name),
    }
}

/// The version in the name of the directory `dir`.
pub fn infer_from_dir_name(platform: Platform, dir: &str) -> (r: Option<String>)
    ensures
        match file_name_spec(platform, dir@) {
            Some(n) => match infer_spec(n) {
                Some(x) => r matches Some(s) && s@ == x,
                None => r is None,
            },
            None => r is None,
        },
{
    match file_name(platform, dir) {
        Some(n) => infer_from_name(n.as_str()),
        None => None,
    }
}

/// The version `go version` prints (`go version go1.23.4 darwin/arm64`
/// gives `1.23.4`): its third word without `go`.
pub open spec fn go_version_spec(output: Seq<char>) -> Option<Seq<char>> {
    let w = words(output);
    if w.len() > 2 {
        strip_prefix(w[2], "go"@)
    } else {
        None
    }
}

/// The version `go version` printed.
pub fn parse_go_version(output: &str) -> (r: Option<String>)
    ensures
        match go_version_spec(output@) {
            Some(x) => r matches Some(s) && s@ == x,
            None => r is None,
        },
{
    let w = words_of(chars_of(output).as_slice());
    if w.len() > 2 {
        assert(seqs_of(w@)[2] == w@[2]@);
        let go = chars_of("go");
        match without_prefix(w[2].as_slice(), go.as_slice()) {
            Some(rest) => Some(string_of(rest.as_slice())),
            None => None,
        }
    } else {
        None
    }
}

} // verus!
