//! The release feeds of the runtimes, read from the JSON pages their
//! sources publish: serde_json parses a page, and the library picks out
//! what the release lists are made from.
use vstd::prelude::*;
use crate::installer::{
    available_views, go_spec, go_versions, java_majors, java_majors_spec, java_spec, java_versions, node_spec,
    node_versions,
};
use crate::models::{AvailableVersion, AvailableView};
use crate::text::{chars_of, owned, push_str, string_of, strs_of};

verus! {

// ---------------------------------------------------------------------------
// What serde_json reads from a page
// ---------------------------------------------------------------------------

/// What `serde_json::from_str` reports when `body` is not JSON (its
/// error's text), none when it is.
pub uninterp spec fn json_error_of(body: Seq<char>) -> Option<Seq<char>>;

/// The items of the array under `key` of the JSON `body`, each as an
/// `i64` when it is one; none when `body` is not JSON or has no such array.
pub uninterp spec fn json_int_items(body: Seq<char>, key: Seq<char>) -> Option<Seq<Option<i64>>>;

/// For each item of the JSON array `body`, the string at `pointer` in it,
/// if there is one; none when `body` is not a JSON array.
pub uninterp spec fn json_item_strs(body: Seq<char>, pointer: Seq<char>) -> Option<Seq<Option<Seq<char>>>>;

/// For each item of the JSON array `body`, whether the value at `pointer`
/// in it is `null`, if there is a value; none when `body` is not a JSON
/// array.
pub uninterp spec fn json_item_nulls(body: Seq<char>, pointer: Seq<char>) -> Option<Seq<Option<bool>>>;

/// For each item of the JSON array `body`, the boolean at `pointer` in it,
/// if there is one; none when `body` is not a JSON array.
pub uninterp spec fn json_item_bools(body: Seq<char>, pointer: Seq<char>) -> Option<Seq<Option<bool>>>;

/// The views of optional texts.
pub open spec fn opt_strs(v: Seq<Option<String>>) -> Seq<Option<Seq<char>>> {
    Seq::new(
        v.len(),
        |i: int|
            match v[i] {
                Some(s) => Some(s@),
                None => None,
            },
    )
}

/// The view of an optional list of flags.
pub open spec fn opt_flags(o: Option<Vec<Option<bool>>>) -> Option<Seq<Option<bool>>> {
    match o {
        Some(v) => Some(v@),
        None => None,
    }
}

/// Parses `body` with `serde_json::from_str` into a `serde_json::Value`
/// and gives the error's text when that fails.  Trusted: the result is
/// `json_error_of(body)`, a function of `body` alone.
#[verifier::external_body]
fn json_error(body: &str) -> (r: Option<String>)
    ensures
        match r {
            Some(e) => json_error_of(body@) == Some(e@),
            None => json_error_of(body@) is None,
        },
{
    serde_json::from_str::<serde_json::Value>(body).err().map(|e| e.to_string())
}

/// Parses `body` with serde_json and converts the array under `key`
/// (`Value::get`, `Value::as_array`) item by item with `Value::as_i64`.
/// Trusted: the result is `json_int_items(body, key)`.
#[verifier::external_body]
fn json_ints(body: &str, key: &str) -> (r: Option<Vec<Option<i64>>>)
    ensures
        match r {
            Some(v) => json_int_items(body@, key@) == Some(v@),
            None => json_int_items(body@, key@) is None,
        },
{
    let v = serde_json::from_str::<serde_json::Value>(body).ok()?;
    let items = v.get(key)?.as_array()?;
    Some(items.iter().map(|n| n.as_i64()).collect())
}

/// Parses `body` with serde_json as an array (`Value::as_array`) and
/// converts each item by `Value::pointer` and `Value::as_str`.  Trusted:
/// the result is `json_item_strs(body, pointer)`.
#[verifier::external_body]
fn json_strs(body: &str, pointer: &str) -> (r: Option<Vec<Option<String>>>)
    ensures
        match r {
            Some(v) => json_item_strs(body@, pointer@) == Some(opt_strs(v@)),
            None => json_item_strs(body@, pointer@) is None,
        },
{
    let v = serde_json::from_str::<serde_json::Value>(body).ok()?;
    let items = v.as_array()?;
    Some(items.iter().map(|i| i.pointer(pointer).and_then(|x| x.as_str()).map(|s| s.to_string())).collect())
}

/// Parses `body` with serde_json as an array and converts each item by
/// `Value::pointer` and `Value::is_null`.  Trusted: the result is
/// `json_item_nulls(body, pointer)`.
#[verifier::external_body]
fn json_nulls(body: &str, pointer: &str) -> (r: Option<Vec<Option<bool>>>)
    ensures
        match r {
            Some(v) => json_item_nulls(body@, pointer@) == Some(v@),
            None => json_item_nulls(body@, pointer@) is None,
        },
{
    let v = serde_json::from_str::<serde_json::Value>(body).ok()?;
    let items = v.as_array()?;
    Some(items.iter().map(|i| i.pointer(pointer).map(|x| x.is_null())).collect())
}

/// Parses `body` with serde_json as an array and converts each item by
/// `Value::pointer` and `Value::as_bool`.  Trusted: the result is
/// `json_item_bools(body, pointer)`.
#[verifier::external_body]
fn json_bools(body: &str, pointer: &str) -> (r: Option<Vec<Option<bool>>>)
    ensures
        match r {
            Some(v) => json_item_bools(body@, pointer@) == Some(v@),
            None => json_item_bools(body@, pointer@) is None,
        },
{
    let v = serde_json::from_str::<serde_json::Value>(body).ok()?;
    let items = v.as_array()?;
    Some(items.iter().map(|i| i.pointer(pointer).and_then(|x| x.as_bool())).collect())
}

// ---------------------------------------------------------------------------
// What the library takes from a page
// ---------------------------------------------------------------------------

/// The message when a page is not JSON.
pub open spec fn parse_message(e: Seq<char>) -> Seq<char> {
    "解析版本源失败: "@ + e
}

fn parse_error(e: &str) -> (r: String)
    ensures
        r@ == parse_message(e@),
{
    let mut s = chars_of("解析版本源失败: ");
    push_str(&mut s, e);
    string_of(s.as_slice())
}

/// The numbers among the items, in order.
pub open spec fn present_ints(items: Seq<Option<i64>>) -> Seq<i64>
    decreases items.len(),
{
    if items.len() == 0 {
        seq![]
    } else {
        let r = present_ints(items.drop_last());
        match items.last() {
            Some(n) => r.push(n),
            None => r,
        }
    }
}

/// The numbers of the array under `key` of a page (none when there is no
/// such array).
pub open spec fn int_array(body: Seq<char>, key: Seq<char>) -> Seq<i64> {
    match json_int_items(body, key) {
        Some(items) => present_ints(items),
        None => seq![],
    }
}

/// The numbers of the array under `key` of the page `body`.
pub fn int_list(body: &str, key: &str) -> (r: Vec<i64>)
    ensures
        r@ == int_array(body@, key@),
{
    let mut out: Vec<i64> = Vec::new();
    match json_ints(body, key) {
        None => {},
        Some(items) => {
            let mut i: usize = 0;
            assert(items@.take(0) =~= Seq::<Option<i64>>::empty());
            while i < items.len()
                invariant
                    i <= items@.len(),
                    out@ == present_ints(items@.take(i as int)),
                decreases items@.len() - i,
            {
                proof {
                    let t = items@.take(i + 1);
                    assert(t.drop_last() =~= items@.take(i as int));
                }
                match items[i] {
                    Some(n) => out.push(n),
                    None => {},
                }
                i = i + 1;
            }
            assert(items@.take(items@.len() as int) =~= items@);
        },
    }
    out
}

/// The strings among the items, in order.
pub open spec fn present_strs(items: Seq<Option<Seq<char>>>) -> Seq<Seq<char>>
    decreases items.len(),
{
    if items.len() == 0 {
        seq![]
    } else {
        let r = present_strs(items.drop_last());
        match items.last() {
            Some(s) => r.push(s),
            None => r,
        }
    }
}

/// The Adoptium feature releases to list, from its `available_releases`
/// page: the long-term ones (`available_lts_releases`) and the two newest
/// others.  `Ok((lts, majors))`, or the parse error.
pub fn java_majors_of(body: &str) -> (r: Result<(Vec<i64>, Vec<i64>), String>)
    ensures
        match json_error_of(body@) {
            Some(e) => r matches Err(m) && m@ == parse_message(e),
            None => r matches Ok(p) && p.0@ == int_array(body@, "available_lts_releases"@) && p.1@
                == java_majors_spec(
                int_array(body@, "available_lts_releases"@),
                int_array(body@, "available_releases"@),
            ),
        },
{
    if let Some(e) = json_error(body) {
        return Err(parse_error(e.as_str()));
    }
    let lts = int_list(body, "available_lts_releases");
    let all = int_list(body, "available_releases");
    let majors = java_majors(&lts, &all);
    Ok((lts, majors))
}

/// The semvers of one feature release's page (`version_data.semver` of
/// each item), none when the page is not a JSON array.
pub open spec fn semvers_spec(body: Seq<char>) -> Seq<Seq<char>> {
    match json_item_strs(body, "/version_data/semver"@) {
        Some(items) => present_strs(items),
        None => seq![],
    }
}

/// The semvers of one feature release's page.
pub fn java_semvers_of(body: &str) -> (r: Vec<String>)
    ensures
        strs_of(r@) == semvers_spec(body@),
{
    let mut out: Vec<String> = Vec::new();
    match json_strs(body, "/version_data/semver") {
        None => {},
        Some(items) => {
            let ghost all = opt_strs(items@);
            let mut i: usize = 0;
            assert(all.take(0) =~= Seq::<Option<Seq<char>>>::empty());
            while i < items.len()
                invariant
                    i <= items@.len(),
                    all == opt_strs(items@),
                    strs_of(out@) == present_strs(all.take(i as int)),
                decreases items@.len() - i,
            {
                proof {
                    let t = all.take(i + 1);
                    assert(t.drop_last() =~= all.take(i as int));
                }
                match &items[i] {
                    Some(s) => {
                        let ghost before = strs_of(out@);
                        out.push(owned(s.as_str()));
                        assert(strs_of(out@) =~= before.push(s@));
                    },
                    None => {},
                }
                i = i + 1;
            }
            assert(all.take(items@.len() as int) =~= all);
        },
    }
    out
}

/// The feature releases with the semvers of their pages, in the order of
/// `majors`; a release whose page could not be had lists none.
pub open spec fn java_releases_spec(majors: Seq<i64>, pages: Seq<Option<Seq<char>>>) -> Seq<(i64, Seq<Seq<char>>)> {
    Seq::new(
        majors.len(),
        |i: int|
            (
                majors[i],
                if i < pages.len() {
                    match pages[i] {
                        Some(b) => semvers_spec(b),
                        None => seq![],
                    }
                } else {
                    seq![]
                },
            ),
    )
}

/// The Temurin releases offered, from the feature releases `majors` and
/// the page of each (`pages[i]` for `majors[i]`, none where the request
/// failed), in the order of `majors`.
pub fn java_feed_of(lts: &Vec<i64>, majors: &Vec<i64>, pages: &Vec<Option<String>>) -> (r: Result<Vec<AvailableVersion>, String>)
    ensures
        ({
            let rs = java_releases_spec(majors@, opt_strs(pages@));
            if java_spec(lts@, rs).len() == 0 {
                r matches Err(m) && m@ == "Adoptium 未返回可用版本"@
            } else {
                r matches Ok(v) && available_views(v@) == java_spec(lts@, rs)
            }
        }),
{
    let ghost rs = java_releases_spec(majors@, opt_strs(pages@));
    let mut releases: Vec<(i64, Vec<String>)> = Vec::new();
    let mut i: usize = 0;
    while i < majors.len()
        invariant
            i <= majors@.len(),
            rs == java_releases_spec(majors@, opt_strs(pages@)),
            releases@.len() == i,
            forall|j: int|
                0 <= j < i ==> (#[trigger] releases@[j]).0 == rs[j].0 && strs_of(releases@[j].1@) == rs[j].1,
        decreases majors@.len() - i,
    {
        let semvers = if i < pages.len() {
            match &pages[i] {
                Some(b) => java_semvers_of(b.as_str()),
                None => Vec::new(),
            }
        } else {
            Vec::new()
        };
        proof {
            if semvers@.len() == 0 {
                assert(strs_of(semvers@) =~= Seq::<Seq<char>>::empty());
            }
        }
        releases.push((majors[i], semvers));
        i = i + 1;
    }
    assert(releases@.map_values(|r: (i64, Vec<String>)| (r.0, strs_of(r.1@))) =~= rs);
    java_versions(lts, &releases)
}

/// The Node.js entries of a page: for each item its version and whether it
/// is long-term (its `lts` value is there and not `null`).
pub open spec fn node_entries_spec(vs: Seq<Option<Seq<char>>>, nulls: Option<Seq<Option<bool>>>) -> Seq<
    (Option<Seq<char>>, bool),
> {
    Seq::new(
        vs.len(),
        |i: int|
            (
                vs[i],
                match nulls {
                    Some(ns) => i < ns.len() && ns[i] == Some(false),
                    None => false,
                },
            ),
    )
}

/// The first releases of a list (80 at most).
pub open spec fn first_80<T>(s: Seq<T>) -> Seq<T> {
    s.take(
        if s.len() < 80 {
            s.len() as int
        } else {
            80
        },
    )
}

/// The Node.js releases of the `dist/index.json` page `body`.
pub open spec fn node_feed_spec(body: Seq<char>) -> Result<Seq<AvailableView>, Seq<char>> {
    match json_error_of(body) {
        Some(e) => Err(parse_message(e)),
        None => match json_item_strs(body, "/version"@) {
            None => Err("nodejs.org 响应格式异常"@),
            Some(vs) => {
                let es = first_80(node_entries_spec(vs, json_item_nulls(body, "/lts"@)));
                if node_spec(es).len() == 0 {
                    Err("nodejs.org 未返回可用版本"@)
                } else {
                    Ok(node_spec(es))
                }
            },
        },
    }
}

/// The Node.js releases of the `dist/index.json` page `body`.
pub fn node_versions_of(body: &str) -> (r: Result<Vec<AvailableVersion>, String>)
    ensures
        match node_feed_spec(body@) {
            Ok(v) => r matches Ok(x) && available_views(x@) == v,
            Err(e) => r matches Err(m) && m@ == e,
        },
{
    if let Some(e) = json_error(body) {
        return Err(parse_error(e.as_str()));
    }
    let vs = match json_strs(body, "/version") {
        Some(v) => v,
        None => {
            return Err(owned("nodejs.org 响应格式异常"));
        },
    };
    let ns = json_nulls(body, "/lts");
    let ghost nv = opt_flags(ns);
    let ghost want = node_entries_spec(opt_strs(vs@), nv);
    let mut entries: Vec<(Option<String>, bool)> = Vec::new();
    let mut i: usize = 0;
    while i < vs.len()
        invariant
            i <= vs@.len(),
            want == node_entries_spec(opt_strs(vs@), nv),
            nv == opt_flags(ns),
            entries@.len() == i,
            forall|j: int|
                0 <= j < i ==> (match (#[trigger] entries@[j]).0 {
                    Some(v) => Some(v@),
                    None => None,
                }, entries@[j].1) == want[j],
        decreases vs@.len() - i,
    {
        let v = match &vs[i] {
            Some(s) => Some(owned(s.as_str())),
            None => None,
        };
        let lts = match &ns {
            Some(n) => i < n.len() && n[i] == Some(false),
            None => false,
        };
        entries.push((v, lts));
        i = i + 1;
    }
    let ghost es = entries@.map_values(|e: (Option<String>, bool)| (
        match e.0 {
            Some(v) => Some(v@),
            None => None,
        },
        e.1,
    ));
    assert(es =~= want);
    assert(first_80(want) =~= es.take(if entries@.len() < 80 { entries@.len() as int } else { 80 }));
    assert(entries@.take(if entries@.len() < 80 { entries@.len() as int } else { 80 }).map_values(
        |e: (Option<String>, bool)| (
            match e.0 {
                Some(v) => Some(v@),
                None => None,
            },
            e.1,
        ),
    ) =~= first_80(want));
    node_versions(&entries)
}

/// The Go entries of a page: for each item whether it is stable and its
/// version.
pub open spec fn go_entries_spec(vs: Seq<Option<Seq<char>>>, stables: Option<Seq<Option<bool>>>) -> Seq<
    (bool, Option<Seq<char>>),
> {
    Seq::new(
        vs.len(),
        |i: int|
            (
                match stables {
                    Some(bs) => i < bs.len() && bs[i] == Some(true),
                    None => false,
                },
                vs[i],
            ),
    )
}

/// The Go releases of the `dl/?mode=json` page `body`.
pub open spec fn go_feed_spec(body: Seq<char>) -> Result<Seq<AvailableView>, Seq<char>> {
    match json_error_of(body) {
        Some(e) => Err(parse_message(e)),
        None => match json_item_strs(body, "/version"@) {
            None => Err("go.dev 响应格式异常"@),
            Some(vs) => {
                let es = go_entries_spec(vs, json_item_bools(body, "/stable"@));
                if go_spec(es).len() == 0 {
                    Err("go.dev 未返回可用版本"@)
                } else {
                    Ok(go_spec(es))
                }
            },
        },
    }
}

/// The Go releases of the `dl/?mode=json` page `body`.
pub fn go_versions_of(body: &str) -> (r: Result<Vec<AvailableVersion>, String>)
    ensures
        match go_feed_spec(body@) {
            Ok(v) => r matches Ok(x) && available_views(x@) == v,
            Err(e) => r matches Err(m) && m@ == e,
        },
{
    if let Some(e) = json_error(body) {
        return Err(parse_error(e.as_str()));
    }
    let vs = match json_strs(body, "/version") {
        Some(v) => v,
        None => {
            return Err(owned("go.dev 响应格式异常"));
        },
    };
    let bs = json_bools(body, "/stable");
    let ghost bv = opt_flags(bs);
    let ghost want = go_entries_spec(opt_strs(vs@), bv);
    let mut entries: Vec<(bool, Option<String>)> = Vec::new();
    let mut i: usize = 0;
    while i < vs.len()
        invariant
            i <= vs@.len(),
            want == go_entries_spec(opt_strs(vs@), bv),
            bv == opt_flags(bs),
            entries@.len() == i,
            forall|j: int|
                0 <= j < i ==> ((#[trigger] entries@[j]).0, match entries@[j].1 {
                    Some(v) => Some(v@),
                    None => None,
                }) == want[j],
        decreases vs@.len() - i,
    {
        let v = match &vs[i] {
            Some(s) => Some(owned(s.as_str())),
            None => None,
        };
        let stable = match &bs {
            Some(b) => i < b.len() && b[i] == Some(true),
            None => false,
        };
        entries.push((stable, v));
        i = i + 1;
    }
    assert(entries@.map_values(|e: (bool, Option<String>)| (
        e.0,
        match e.1 {
            Some(v) => Some(v@),
            None => None,
        },
    )) =~= want);
    go_versions(&entries)
}

} // verus!
