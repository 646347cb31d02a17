//! JDKs: versions in directory names, the `release` file, the listing of
//! `/usr/libexec/java_home -V`, where a JDK's home is, and the list of
//! homes without duplicates.
use vstd::prelude::*;
use crate::activation::Platform;
use crate::models::RuntimeKind;
use crate::order::{stable_sort, lemma_insert_at};
use crate::platform::{file_name, file_name_spec, join_spec, path_join};
use crate::text::{
    chars_of, contains_char, dotted_run, dotted_run_end, is_digit, is_ascii_digit, lemma_dotted_run, lines,
    lines_of, owned, same, seqs_of, slice, split, split_at_char, split_once, split_once_at, starts_with,
    string_of, strip_end_all, strip_end_chars, trim, trim_chars, trim_matches, trim_matches_chars, words,
    words_of, has_prefix, lemma_split_nonempty, text_less, text_less_of,
};

verus! {

/// The JDK adapter.
pub struct JavaAdapter;

// ---------------------------------------------------------------------------
// Versions in names
// ---------------------------------------------------------------------------

/// The runs of digits and dots in `s` that start with a digit, in order,
/// each without its trailing dots.
pub open spec fn version_runs(s: Seq<char>) -> Seq<Seq<char>>
    decreases s.len(),
{
    if s.len() == 0 {
        seq![]
    } else if !is_digit(s[0]) {
        version_runs(s.drop_first())
    } else {
        proof {
            lemma_dotted_run(s);
        }
        seq![strip_end_all(s.take(dotted_run(s) as int), '.')] + version_runs(s.skip(dotted_run(s) as int))
    }
}

/// `best`, replaced in turn by each run of `cs` that holds a dot and is
/// strictly longer than the best so far.
pub open spec fn pick_longest(best: Option<Seq<char>>, cs: Seq<Seq<char>>) -> Option<Seq<char>>
    decreases cs.len(),
{
    if cs.len() == 0 {
        best
    } else {
        let c = cs[0];
        let next = if c.contains('.') && (match best {
            Some(b) => c.len() > b.len(),
            None => true,
        }) {
            Some(c)
        } else {
            best
        };
        pick_longest(next, cs.drop_first())
    }
}

/// The version in `s` (`\d+(\.\d+)+`, trailing dots dropped): the longest
/// run of digits and dots that holds a dot, the first of equally long
/// ones.
pub open spec fn extract_spec(s: Seq<char>) -> Option<Seq<char>> {
    pick_longest(None, version_runs(s))
}

/// The version in `s`, such as `17.0.10` in `jdk-17.0.10.jdk`.
pub fn extract_version(s: &str) -> (r: Option<String>)
    ensures
        match extract_spec(s@) {
            Some(v) => r matches Some(x) && x@ == v,
            None => r is None,
        },
{
    let c = chars_of(s);
    let n = c.len();
    let mut best: Option<Vec<char>> = None;
    let mut i: usize = 0;
    assert(c@.skip(0) =~= c@);
    while i < n
        invariant
            n == c@.len(),
            c@ == s@,
            i <= n,
            extract_spec(s@) == pick_longest(
                match best {
                    Some(b) => Some(b@),
                    None => None,
                },
                version_runs(c@.skip(i as int)),
            ),
        decreases n - i,
    {
        let ghost x = c@.skip(i as int);
        assert(x[0] == c@[i as int]);
        if !is_ascii_digit(c[i]) {
            assert(x.drop_first() =~= c@.skip(i + 1));
            i = i + 1;
        } else {
            let j = dotted_run_end(c.as_slice(), i);
            let run = slice(c.as_slice(), i, j);
            let cand = strip_end_chars(run.as_slice(), '.');
            proof {
                lemma_dotted_run(x);
                assert(x.take(dotted_run(x) as int) =~= run@);
                assert(x.skip(dotted_run(x) as int) =~= c@.skip(j as int));
                let cs = version_runs(x);
                assert(cs == seq![cand@] + version_runs(c@.skip(j as int)));
                assert(cs[0] == cand@);
                assert(cs.drop_first() =~= version_runs(c@.skip(j as int)));
            }
            let dotted = contains_char(cand.as_slice(), '.');
            let longer = match &best {
                Some(b) => cand.len() > b.len(),
                None => true,
            };
            if dotted && longer {
                best = Some(cand);
            }
            assert(j > i);
            i = j;
        }
    }
    assert(c@.skip(n as int).len() == 0);
    match best {
        Some(b) => Some(string_of(b.as_slice())),
        None => None,
    }
}

// ---------------------------------------------------------------------------
// The release file
// ---------------------------------------------------------------------------

/// The version and vendor after one line of a `release` file:
/// `KEY=VALUE` lines set `JAVA_VERSION` and `JAVA_VENDOR`, the value
/// trimmed and without the double quotes at its ends.
pub open spec fn release_line(st: (Option<Seq<char>>, Option<Seq<char>>), line: Seq<char>) -> (
    Option<Seq<char>>,
    Option<Seq<char>>,
) {
    match split_once(line, '=') {
        None => st,
        Some(kv) => {
            let v = trim_matches(trim(kv.1), '"');
            if trim(kv.0) == "JAVA_VERSION"@ {
                (Some(v), st.1)
            } else if trim(kv.0) == "JAVA_VENDOR"@ {
                (st.0, Some(v))
            } else {
                st
            }
        },
    }
}

/// The version and vendor set by the lines `ls`, the last setting
/// winning.
pub open spec fn release_of(ls: Seq<Seq<char>>) -> (Option<Seq<char>>, Option<Seq<char>>)
    decreases ls.len(),
{
    if ls.len() == 0 {
        (None, None)
    } else {
        release_line(release_of(ls.drop_last()), ls.last())
    }
}

/// The version and vendor of a `release` file: none without a version;
/// `Unknown` without a vendor.
pub open spec fn release_spec(content: Seq<char>) -> Option<(Seq<char>, Seq<char>)> {
    let st = release_of(lines(content));
    match st.0 {
        Some(v) => Some(
            (
                v,
                match st.1 {
                    Some(w) => w,
                    None => "Unknown"@,
                },
            ),
        ),
        None => None,
    }
}

/// The version and vendor of a JDK's `release` file.
pub fn parse_release(content: &str) -> (r: Option<(String, String)>)
    ensures
        match release_spec(content@) {
            Some(p) => r matches Some(q) && q.0@ == p.0 && q.1@ == p.1,
            None => r is None,
        },
{
    let c = chars_of(content);
    let ls = lines_of(c.as_slice());
    let vkey = chars_of("JAVA_VERSION");
    let wkey = chars_of("JAVA_VENDOR");
    let mut version: Option<Vec<char>> = None;
    let mut vendor: Option<Vec<char>> = None;
    let ghost all = seqs_of(ls@);
    let mut i: usize = 0;
    assert(all.take(0) =~= Seq::<Seq<char>>::empty());
    while i < ls.len()
        invariant
            i <= ls@.len(),
            all == seqs_of(ls@),
            all == lines(content@),
            vkey@ == "JAVA_VERSION"@,
            wkey@ == "JAVA_VENDOR"@,
            release_of(all.take(i as int)) == (
                match version {
                    Some(v) => Some(v@),
                    None => None,
                },
                match vendor {
                    Some(v) => Some(v@),
                    None => None,
                },
            ),
        decreases ls@.len() - i,
    {
        proof {
            let t = all.take(i + 1);
            assert(t.drop_last() =~= all.take(i as int));
            assert(t.last() == ls@[i as int]@);
        }
        match split_once_at(ls[i].as_slice(), '=') {
            Some((k, v)) => {
                let value = trim_matches_chars(trim_chars(v.as_slice()).as_slice(), '"');
                let key = trim_chars(k.as_slice());
                if same(key.as_slice(), vkey.as_slice()) {
                    version = Some(value);
                } else if same(key.as_slice(), wkey.as_slice()) {
                    vendor = Some(value);
                }
            },
            None => {},
        }
        i = i + 1;
    }
    assert(all.take(ls@.len() as int) =~= all);
    match version {
        Some(v) => {
            let w = match vendor {
                Some(w) => string_of(w.as_slice()),
                None => owned("Unknown"),
            };
            Some((string_of(v.as_slice()), w))
        },
        None => None,
    }
}

// ---------------------------------------------------------------------------
// The listing of java_home -V
// ---------------------------------------------------------------------------

/// The text between the first two double quotes of `line`.
pub open spec fn quoted_spec(line: Seq<char>) -> Option<Seq<char>> {
    let ps = split(line, '"');
    if ps.len() > 1 {
        Some(ps[1])
    } else {
        None
    }
}

/// The text between the first two double quotes of `line`.
pub fn extract_quoted(line: &str) -> (r: Option<String>)
    ensures
        match quoted_spec(line@) {
            Some(q) => r matches Some(s) && s@ == q,
            None => r is None,
        },
{
    let c = chars_of(line);
    let ps = split_at_char(c.as_slice(), '"');
    if ps.len() > 1 {
        assert(seqs_of(ps@)[1] == ps@[1]@);
        Some(string_of(ps[1].as_slice()))
    } else {
        None
    }
}

/// The JDK a line of the listing names, as (home, version, vendor): the
/// last space-separated piece is the home and must be absolute, the first
/// word the version, the first quoted text the vendor (`Unknown` without
/// one); blank lines and the header and footer lines name none.
pub open spec fn listing_entry(line: Seq<char>) -> Option<(Seq<char>, Seq<char>, Seq<char>)> {
    let t = trim(line);
    let ps = split(t, ' ');
    let path = ps[ps.len() - 1];
    let ws = words(t);
    let version = if ws.len() > 0 {
        ws[0]
    } else {
        seq![]
    };
    if t.len() == 0 || starts_with(t, "Matching"@) || starts_with(t, "No Java"@) {
        None
    } else if path.len() > 0 && path[0] == '/' && version.len() > 0 {
        Some(
            (
                path,
                version,
                match quoted_spec(t) {
                    Some(q) => q,
                    None => "Unknown"@,
                },
            ),
        )
    } else {
        None
    }
}

/// The JDKs named by the lines `ls`, in order.
pub open spec fn listing_entries(ls: Seq<Seq<char>>) -> Seq<(Seq<char>, Seq<char>, Seq<char>)>
    decreases ls.len(),
{
    if ls.len() == 0 {
        seq![]
    } else {
        let rest = listing_entries(ls.drop_last());
        match listing_entry(ls.last()) {
            Some(e) => rest.push(e),
            None => rest,
        }
    }
}

/// The triples of strings as triples of character sequences.
pub open spec fn triple_views(v: Seq<(String, String, String)>) -> Seq<(Seq<char>, Seq<char>, Seq<char>)> {
    Seq::new(v.len(), |i: int| (v[i].0@, v[i].1@, v[i].2@))
}

/// The JDK a line of the listing names.
fn listing_line(line: &Vec<char>) -> (r: Option<(String, String, String)>)
    ensures
        match listing_entry(line@) {
            Some(e) => r matches Some(q) && q.0@ == e.0 && q.1@ == e.1 && q.2@ == e.2,
            None => r is None,
        },
{
    let t = trim_chars(line.as_slice());
    let ps = split_at_char(t.as_slice(), ' ');
    proof {
        lemma_split_nonempty(t@, ' ');
    }
    let path = &ps[ps.len() - 1];
    assert(seqs_of(ps@)[ps@.len() - 1] == path@);
    let ws = words_of(t.as_slice());
    let version = if ws.len() > 0 {
        slice(ws[0].as_slice(), 0, ws[0].len())
    } else {
        Vec::new()
    };
    proof {
        if ws@.len() > 0 {
            assert(ws@[0]@.subrange(0, ws@[0]@.len() as int) =~= ws@[0]@);
            assert(seqs_of(ws@)[0] == ws@[0]@);
        }
    }
    let matching = chars_of("Matching");
    let no_java = chars_of("No Java");
    if t.len() == 0 || has_prefix(t.as_slice(), matching.as_slice()) || has_prefix(
        t.as_slice(),
        no_java.as_slice(),
    ) {
        return None;
    }
    if path.len() > 0 && path[0] == '/' && version.len() > 0 {
        let ts = string_of(t.as_slice());
        let vendor = match extract_quoted(ts.as_str()) {
            Some(q) => q,
            None => owned("Unknown"),
        };
        Some((string_of(path.as_slice()), string_of(version.as_slice()), vendor))
    } else {
        None
    }
}

/// The JDKs listed by `/usr/libexec/java_home -V`, as (home, version,
/// vendor).
pub fn parse_java_home_v(output: &str) -> (r: Vec<(String, String, String)>)
    ensures
        triple_views(r@) == listing_entries(lines(output@)),
{
    let c = chars_of(output);
    let ls = lines_of(c.as_slice());
    let ghost all = seqs_of(ls@);
    let mut r: Vec<(String, String, String)> = Vec::new();
    let mut i: usize = 0;
    assert(all.take(0) =~= Seq::<Seq<char>>::empty());
    assert(triple_views(r@) =~= Seq::<(Seq<char>, Seq<char>, Seq<char>)>::empty());
    while i < ls.len()
        invariant
            i <= ls@.len(),
            all == seqs_of(ls@),
            all == lines(output@),
            triple_views(r@) == listing_entries(all.take(i as int)),
        decreases ls@.len() - i,
    {
        proof {
            let t = all.take(i + 1);
            assert(t.drop_last() =~= all.take(i as int));
            assert(t.last() == ls@[i as int]@);
        }
        match listing_line(&ls[i]) {
            Some(e) => {
                let ghost before = triple_views(r@);
                r.push(e);
                assert(triple_views(r@) =~= before.push((e.0@, e.1@, e.2@)));
            },
            None => {},
        }
        i = i + 1;
    }
    assert(all.take(ls@.len() as int) =~= all);
    r
}

// ---------------------------------------------------------------------------
// The home of a JDK directory
// ---------------------------------------------------------------------------

/// The home, version and vendor of the JDK directory `jdk`: the
/// `Contents/Home` inside it when asked (`home_inside`) and its release
/// file reads; else the directory itself when its release file reads;
/// else the directory with the version in its name and vendor `Unknown`.
/// `home_release` and `jdk_release` are the two release files, when they
/// could be read.
pub open spec fn resolve_spec(
    platform: Platform,
    jdk: Seq<char>,
    home_inside: bool,
    home_release: Option<Seq<char>>,
    jdk_release: Option<Seq<char>>,
) -> Option<(Seq<char>, Seq<char>, Seq<char>)> {
    let home = join_spec(platform, join_spec(platform, jdk, "Contents"@), "Home"@);
    let from_home = match home_release {
        Some(c) => release_spec(c),
        None => None,
    };
    let from_jdk = match jdk_release {
        Some(c) => release_spec(c),
        None => None,
    };
    let name = match file_name_spec(platform, jdk) {
        Some(n) => n,
        None => seq![],
    };
    match (home_inside, from_home, from_jdk) {
        (true, Some(h), _) => Some((home, h.0, h.1)),
        (_, _, Some(j)) => Some((jdk, j.0, j.1)),
        _ => match extract_spec(name) {
            Some(v) => Some((jdk, v, "Unknown"@)),
            None => None,
        },
    }
}

/// The home, version and vendor of the JDK directory `jdk`.
pub fn resolve_jdk_home(
    platform: Platform,
    jdk: &str,
    home_inside: bool,
    home_release: Option<&str>,
    jdk_release: Option<&str>,
) -> (r: Option<(String, String, String)>)
    ensures
        match resolve_spec(
            platform,
            jdk@,
            home_inside,
            match home_release {
                Some(c) => Some(c@),
                None => None,
            },
            match jdk_release {
                Some(c) => Some(c@),
                None => None,
            },
        ) {
            Some(e) => r matches Some(q) && q.0@ == e.0 && q.1@ == e.1 && q.2@ == e.2,
            None => r is None,
        },
{
    proof {
        reveal_strlit("Contents");
        reveal_strlit("Home");
    }
    if home_inside {
        if let Some(c) = home_release {
            if let Some((v, w)) = parse_release(c) {
                let contents = path_join(platform, jdk, "Contents");
                let home = path_join(platform, contents.as_str(), "Home");
                return Some((home, v, w));
            }
        }
    }
    if let Some(c) = jdk_release {
        if let Some((v, w)) = parse_release(c) {
            return Some((owned(jdk), v, w));
        }
    }
    let name = match file_name(platform, jdk) {
        Some(n) => n,
        None => String::new(),
    };
    match extract_version(name.as_str()) {
        Some(v) => Some((owned(jdk), v, owned("Unknown"))),
        None => None,
    }
}

// ---------------------------------------------------------------------------
// The current version
// ---------------------------------------------------------------------------

/// The version that `java -version` prints on its first line between
/// double quotes, trimmed, when not empty.
pub open spec fn java_version_spec(stderr: Seq<char>) -> Option<Seq<char>> {
    let ls = lines(stderr);
    if ls.len() == 0 {
        None
    } else {
        match quoted_spec(ls[0]) {
            Some(q) => if trim(q).len() > 0 {
                Some(trim(q))
            } else {
                None
            },
            None => None,
        }
    }
}

/// The version that `java -version` printed on its error stream.
pub fn parse_java_version(stderr: &str) -> (r: Option<String>)
    ensures
        match java_version_spec(stderr@) {
            Some(v) => r matches Some(s) && s@ == v,
            None => r is None,
        },
{
    let c = chars_of(stderr);
    let ls = lines_of(c.as_slice());
    if ls.len() == 0 {
        return None;
    }
    assert(seqs_of(ls@)[0] == ls@[0]@);
    let first = string_of(ls[0].as_slice());
    match extract_quoted(first.as_str()) {
        Some(q) => {
            let t = trim_chars(chars_of(q.as_str()).as_slice());
            if t.len() > 0 {
                Some(string_of(t.as_slice()))
            } else {
                None
            }
        },
        None => None,
    }
}

// ---------------------------------------------------------------------------
// Homes without duplicates
// ---------------------------------------------------------------------------

/// Home paths in `str` order.
pub open spec fn by_path() -> spec_fn((Seq<char>, Seq<char>, Seq<char>), (Seq<char>, Seq<char>, Seq<char>)) -> bool {
    |a: (Seq<char>, Seq<char>, Seq<char>), b: (Seq<char>, Seq<char>, Seq<char>)| text_less(a.0, b.0)
}

/// `s` with each entry whose home equals that of the entry kept before it
/// left out (`Vec::dedup_by` on the home).
pub open spec fn dedup_homes_spec(s: Seq<(Seq<char>, Seq<char>, Seq<char>)>) -> Seq<(Seq<char>, Seq<char>, Seq<char>)>
    decreases s.len(),
{
    if s.len() == 0 {
        seq![]
    } else {
        let d = dedup_homes_spec(s.drop_last());
        if d.len() > 0 && d.last().0 == s.last().0 {
            d
        } else {
            d.push(s.last())
        }
    }
}

/// The homes found, sorted by home path (stably) and without repeated
/// homes (the first of each kept).
pub fn dedup_homes(homes: Vec<(String, String, String)>) -> (r: Vec<(String, String, String)>)
    ensures
        triple_views(r@) == dedup_homes_spec(stable_sort(triple_views(homes@), by_path())),
{
    let ghost rel = by_path();
    let ghost s = triple_views(homes@);
    let n = homes.len();
    let mut src = homes;
    let mut rev: Vec<(String, String, String)> = Vec::new();
    while src.len() > 0
        invariant
            src@.len() + rev@.len() == n,
            n == s.len(),
            forall|j: int| 0 <= j < src@.len() ==> (#[trigger] src@[j]).0@ == s[j].0 && src@[j].1@ == s[j].1
                && src@[j].2@ == s[j].2,
            forall|j: int| 0 <= j < rev@.len() ==> (#[trigger] rev@[j]).0@ == s[n - 1 - j].0 && rev@[j].1@ == s[n
                - 1 - j].1 && rev@[j].2@ == s[n - 1 - j].2,
        decreases src@.len(),
    {
        let e = src.pop().unwrap();
        rev.push(e);
    }
    let mut sorted: Vec<(String, String, String)> = Vec::new();
    let mut i: usize = 0;
    assert(s.take(0) =~= Seq::<(Seq<char>, Seq<char>, Seq<char>)>::empty());
    assert(triple_views(sorted@) =~= Seq::<(Seq<char>, Seq<char>, Seq<char>)>::empty());
    while i < n
        invariant
            n == s.len(),
            i <= n,
            rev@.len() == n - i,
            forall|j: int| 0 <= j < rev@.len() ==> (#[trigger] rev@[j]).0@ == s[n - 1 - j].0 && rev@[j].1@ == s[n
                - 1 - j].1 && rev@[j].2@ == s[n - 1 - j].2,
            rel == by_path(),
            triple_views(sorted@) == stable_sort(s.take(i as int), rel),
        decreases n - i,
    {
        let e = rev.pop().unwrap();
        let ghost ev = (e.0@, e.1@, e.2@);
        assert(ev == s[i as int]);
        let ce = chars_of(e.0.as_str());
        let mut p: usize = sorted.len();
        while p > 0 && text_less_of(&ce, &chars_of(sorted[p - 1].0.as_str()))
            invariant
                p <= sorted@.len(),
                ce@ == e.0@,
                ev == (e.0@, e.1@, e.2@),
                rel == by_path(),
                forall|j: int| p <= j < sorted@.len() ==> (rel)(ev, #[trigger] triple_views(sorted@)[j]),
            decreases p,
        {
            assert(triple_views(sorted@)[p - 1] == (sorted@[p - 1].0@, sorted@[p - 1].1@, sorted@[p - 1].2@));
            p = p - 1;
        }
        let ghost before = triple_views(sorted@);
        proof {
            lemma_insert_at(before, ev, rel, p as int);
            let t = s.take(i + 1);
            assert(t.drop_last() =~= s.take(i as int));
            assert(t.last() == ev);
        }
        sorted.insert(p, e);
        assert(triple_views(sorted@) =~= before.take(p as int).push(ev) + before.skip(p as int));
        i = i + 1;
    }
    assert(s.take(n as int) =~= s);
    let ghost ss = triple_views(sorted@);
    let mut r: Vec<(String, String, String)> = Vec::new();
    let mut k: usize = 0;
    assert(ss.take(0) =~= Seq::<(Seq<char>, Seq<char>, Seq<char>)>::empty());
    assert(triple_views(r@) =~= Seq::<(Seq<char>, Seq<char>, Seq<char>)>::empty());
    while k < sorted.len()
        invariant
            k <= sorted@.len(),
            ss == triple_views(sorted@),
            triple_views(r@) == dedup_homes_spec(ss.take(k as int)),
        decreases sorted@.len() - k,
    {
        proof {
            let t = ss.take(k + 1);
            assert(t.drop_last() =~= ss.take(k as int));
            assert(t.last() == ss[k as int]);
        }
        let ghost before = triple_views(r@);
        let dup = r.len() > 0 && r[r.len() - 1].0 == sorted[k].0;
        proof {
            if r@.len() > 0 {
                assert(before.last() == (r@[r@.len() - 1].0@, r@[r@.len() - 1].1@, r@[r@.len() - 1].2@));
            }
        }
        if !dup {
            let e = (sorted[k].0.clone(), sorted[k].1.clone(), sorted[k].2.clone());
            r.push(e);
            assert(triple_views(r@) =~= before.push(ss[k as int]));
        }
        k = k + 1;
    }
    assert(ss.take(sorted@.len() as int) =~= ss);
    r
}

} // verus!
