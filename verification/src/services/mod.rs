//! Services that the library installs and runs (Redis, MySQL, the vision
//! helper), and what they share: the list of all of them, the tail of a log
//! and the grouping of a flat version list by its first field.
pub mod launchd;
pub mod mysql;
pub mod redis;
pub mod vision;

use vstd::prelude::*;
use crate::installer::{find_group, lemma_find_group, position_of_major};
use crate::activation::Platform;
use crate::platform::{join_spec, path_join};
use crate::models::{AvailableVersionGroup, GroupView, ServiceInfo};
use crate::sorting::{dotted_newer_first, group_views};
use crate::text::{
    chars_of, decimal, join, join_with, lines, lines_of, push_decimal, push_str, seqs_of, split,
    split_at_char, starts_with, string_of, strs_of, lemma_split_nonempty, has_prefix, slice,
};

verus! {

/// The state of every service: Redis, then MySQL.
pub fn list_all(redis: ServiceInfo, mysql: ServiceInfo) -> (r: Vec<ServiceInfo>)
    ensures
        r@ == seq![redis, mysql],
{
    let mut r: Vec<ServiceInfo> = Vec::new();
    r.push(redis);
    r.push(mysql);
    assert(r@ =~= seq![redis, mysql]);
    r
}

// ---------------------------------------------------------------------------
// The tail of a log
// ---------------------------------------------------------------------------

/// How many bytes of a log are read from its end at most.
pub const MAX_TAIL_BYTES: u64 = 262144;

/// The last `count` lines (at least one) of `content`, the text read from
/// the end of a log; when the read started inside the log (`truncated`),
/// its first line is cut and left out unless it is the only one, and a
/// note says how many lines are shown.
pub open spec fn tail_spec(content: Seq<char>, truncated: bool, count: nat) -> Seq<char> {
    let want = if count == 0 {
        1
    } else {
        count
    };
    let all = lines(content);
    let shown = if truncated && all.len() > 1 {
        all.drop_first()
    } else {
        all
    };
    let n = if shown.len() < want {
        shown.len()
    } else {
        want
    };
    let body = join(shown.skip(shown.len() - n), '\n');
    if truncated {
        "…（日志较长，仅显示末尾 "@ + decimal(n) + " 行）\n"@ + body
    } else {
        body
    }
}

/// The tail of a log: `content` is what was read from its end, `truncated`
/// whether the read started after the log's first byte.
pub fn tail_text(content: &str, truncated: bool, count: usize) -> (r: String)
    ensures
        r@ == tail_spec(content@, truncated, count as nat),
{
    let want: usize = if count == 0 {
        1
    } else {
        count
    };
    let c = chars_of(content);
    let all = lines_of(c.as_slice());
    let from: usize = if truncated && all.len() > 1 {
        1
    } else {
        0
    };
    let len = all.len() - from;
    let n: usize = if len < want {
        len
    } else {
        want
    };
    let ghost shown = if truncated && seqs_of(all@).len() > 1 {
        seqs_of(all@).drop_first()
    } else {
        seqs_of(all@)
    };
    let mut picked: Vec<Vec<char>> = Vec::new();
    let mut i: usize = all.len() - n;
    let start = i;
    while i < all.len()
        invariant
            start <= i <= all@.len(),
            picked@.len() == i - start,
            forall|j: int| 0 <= j < picked@.len() ==> #[trigger] picked@[j]@ == all@[start + j]@,
        decreases all@.len() - i,
    {
        picked.push(slice(all[i].as_slice(), 0, all[i].len()));
        proof {
            assert(all@[i as int]@.subrange(0, all@[i as int]@.len() as int) =~= all@[i as int]@);
        }
        i = i + 1;
    }
    proof {
        assert(shown.len() == len);
        assert(seqs_of(picked@) =~= shown.skip(shown.len() - n));
    }
    let body = join_with(&picked, '\n');
    if truncated {
        let mut out = chars_of("…（日志较长，仅显示末尾 ");
        push_decimal(&mut out, n as u64);
        push_str(&mut out, " 行）\n");
        let mut all_out = out;
        let mut k: usize = 0;
        let ghost head = all_out@;
        while k < body.len()
            invariant
                k <= body@.len(),
                all_out@ == head + body@.take(k as int),
            decreases body@.len() - k,
        {
            all_out.push(body[k]);
            assert(body@.take(k + 1) =~= body@.take(k as int).push(body@[k as int]));
            k = k + 1;
        }
        assert(body@.take(body@.len() as int) =~= body@);
        string_of(all_out.as_slice())
    } else {
        string_of(body.as_slice())
    }
}

// ---------------------------------------------------------------------------
// Grouping a flat version list
// ---------------------------------------------------------------------------

/// The first dotted field of `v`.
pub open spec fn first_field(v: Seq<char>) -> Seq<char> {
    split(v, '.')[0]
}

/// Whether a new group made for `v` is long-term supported: when `marker`
/// is given, the versions that start with it are.
pub open spec fn lts_by(marker: Option<Seq<char>>, v: Seq<char>) -> bool {
    match marker {
        Some(p) => starts_with(v, p),
        None => false,
    }
}

/// `v` added to the group of its first field (at its end), or as a new
/// group whose latest version it is.
pub open spec fn add_flat(gs: Seq<GroupView>, v: Seq<char>, marker: Option<Seq<char>>) -> Seq<GroupView> {
    match find_group(gs, first_field(v)) {
        Some(i) => gs.update(
            i,
            GroupView {
                major: gs[i].major,
                is_lts: gs[i].is_lts,
                versions: gs[i].versions.push(v),
                latest: gs[i].latest,
            },
        ),
        None => gs.push(
            GroupView { major: first_field(v), is_lts: lts_by(marker, v), versions: seq![v], latest: v },
        ),
    }
}

/// The versions `vs` grouped by their first field, in the order in which
/// the fields first occur, each group in input order.
pub open spec fn flat_groups(vs: Seq<Seq<char>>, marker: Option<Seq<char>>) -> Seq<GroupView>
    decreases vs.len(),
{
    if vs.len() == 0 {
        seq![]
    } else {
        add_flat(flat_groups(vs.drop_last(), marker), vs.last(), marker)
    }
}

/// The first dotted field of `v`.
fn first_field_of(v: &String) -> (r: String)
    ensures
        r@ == first_field(v@),
{
    let c = chars_of(v.as_str());
    let pieces = split_at_char(c.as_slice(), '.');
    proof {
        lemma_split_nonempty(c@, '.');
    }
    string_of(pieces[0].as_slice())
}

/// Groups `versions` by their first field; a new group is long-term
/// supported when its first version starts with `marker`.
pub fn group_flat(versions: &Vec<String>, marker: Option<&str>) -> (r: Vec<AvailableVersionGroup>)
    ensures
        group_views(r@) == flat_groups(
            strs_of(versions@),
            match marker {
                Some(m) => Some(m@),
                None => None,
            },
        ),
{
    let ghost mk = match marker {
        Some(m) => Some(m@),
        None => None,
    };
    let ghost vs = strs_of(versions@);
    let mut groups: Vec<AvailableVersionGroup> = Vec::new();
    let mut k: usize = 0;
    assert(vs.take(0) =~= Seq::<Seq<char>>::empty());
    while k < versions.len()
        invariant
            k <= versions@.len(),
            vs == strs_of(versions@),
            mk == (match marker {
                Some(m) => Some(m@),
                None => None,
            }),
            group_views(groups@) == flat_groups(vs.take(k as int), mk),
        decreases versions@.len() - k,
    {
        let v = &versions[k];
        let major = first_field_of(v);
        let ghost before = group_views(groups@);
        proof {
            let t = vs.take(k + 1);
            assert(t.drop_last() =~= vs.take(k as int));
            assert(t.last() == v@);
            lemma_find_group(before, major@);
        }
        let glen = groups.len();
        match position_of_major(&groups, &major) {
            Some(i) => {
                proof {
                    let w = find_group(before, major@)->0;
                    assert(w == i);
                }
                let ghost gv = groups@;
                let mut g = groups.remove(i);
                let ghost old_g = g@;
                assert(old_g == before[i as int]);
                assert(old_g.versions =~= strs_of(g.versions@));
                g.versions.push(v.clone());
                assert(g@.versions =~= old_g.versions.push(v@));
                let ghost new_g = g@;
                groups.insert(i, g);
                proof {
                    assert(groups@ =~= gv.update(i as int, g));
                    let want = add_flat(before, v@, mk);
                    assert(new_g == want[i as int]);
                    assert forall|x: int| 0 <= x < want.len() implies #[trigger] group_views(groups@)[x]
                        == want[x] by {
                        if x != i {
                            assert(groups@[x] == gv[x]);
                        }
                    }
                }
                assert(group_views(groups@) =~= add_flat(before, v@, mk));
            },
            None => {
                let lts = match marker {
                    Some(m) => {
                        let cv = chars_of(v.as_str());
                        let cm = chars_of(m);
                        has_prefix(cv.as_slice(), cm.as_slice())
                    },
                    None => false,
                };
                let mut vv: Vec<String> = Vec::new();
                vv.push(v.clone());
                let g = AvailableVersionGroup { major: major, is_lts: lts, versions: vv, latest: v.clone() };
                assert(g@.versions =~= seq![v@]);
                groups.push(g);
                assert(group_views(groups@) =~= add_flat(before, v@, mk));
            },
        }
        k = k + 1;
    }
    assert(vs.take(versions@.len() as int) =~= vs);
    groups
}

/// Some group of `gs` has first field `m` and holds `v`.
pub open spec fn in_group_of(gs: Seq<GroupView>, m: Seq<char>, v: Seq<char>) -> bool {
    exists|i: int| 0 <= i < gs.len() && (#[trigger] gs[i]).major == m && gs[i].versions.contains(v)
}

/// `a` comes before `b` in `vs` (at some pair of positions).
pub open spec fn listed_before(vs: Seq<Seq<char>>, a: Seq<char>, b: Seq<char>) -> bool {
    exists|p: int, q: int| 0 <= p < q < vs.len() && #[trigger] vs[p] == a && #[trigger] vs[q] == b
}

/// A group of the flat list `vs`: it holds versions, all of its first
/// field and all listed, each after the ones before it in the list; its
/// latest version is its first; it is long-term supported as its first
/// version says.
pub open spec fn flat_group_ok(vs: Seq<Seq<char>>, marker: Option<Seq<char>>, g: GroupView) -> bool {
    &&& g.versions.len() > 0
    &&& g.latest == g.versions[0]
    &&& g.is_lts == lts_by(marker, g.versions[0])
    &&& forall|a: int| 0 <= a < g.versions.len() ==> first_field(#[trigger] g.versions[a]) == g.major && vs.contains(
        g.versions[a],
    )
    &&& forall|a: int, b: int| 0 <= a < b < g.versions.len() ==> listed_before(vs, #[trigger] g.versions[a], #[trigger] g.versions[b])
}

/// What grouping a flat list gives.
proof fn lemma_flat_groups(vs: Seq<Seq<char>>, marker: Option<Seq<char>>)
    ensures
        crate::order::pairwise(flat_groups(vs, marker), |a: GroupView, b: GroupView| a.major != b.major),
        forall|i: int| 0 <= i < flat_groups(vs, marker).len() ==> flat_group_ok(vs, marker, #[trigger] flat_groups(vs, marker)[i]),
        forall|k: int| 0 <= k < vs.len() ==> in_group_of(flat_groups(vs, marker), first_field(#[trigger] vs[k]), vs[k]),
    decreases vs.len(),
{
    if vs.len() > 0 {
        let d = vs.drop_last();
        let v = vs.last();
        let c = flat_groups(d, marker);
        lemma_flat_groups(d, marker);
        let m = first_field(v);
        lemma_find_group(c, m);
        let r = flat_groups(vs, marker);
        assert(r == add_flat(c, v, marker));
        assert(vs[vs.len() - 1] == v);
        assert forall|x: Seq<char>| d.contains(x) implies vs.contains(x) by {
            let k = choose|k: int| 0 <= k < d.len() && d[k] == x;
            assert(vs[k] == d[k]);
        }
        assert forall|a: Seq<char>, b: Seq<char>| listed_before(d, a, b) implies listed_before(vs, a, b) by {
            let (p, q) = choose|p: int, q: int| 0 <= p < q < d.len() && #[trigger] d[p] == a && #[trigger] d[q] == b;
            assert(vs[p] == d[p] && vs[q] == d[q]);
        }
        match find_group(c, m) {
            Some(i) => {
                let g = c[i];
                let ng = r[i];
                assert(ng.versions == g.versions.push(v));
                assert forall|a: int, b: int| 0 <= a < r.len() && 0 <= b < r.len() && a != b implies (#[trigger] r[a]).major
                    != (#[trigger] r[b]).major by {
                    assert(c[a].major != c[b].major);
                }
                assert forall|j: int| 0 <= j < r.len() implies flat_group_ok(vs, marker, #[trigger] r[j]) by {
                    assert(flat_group_ok(d, marker, c[j]));
                    if j == i {
                        let ws = g.versions;
                        let nws = ng.versions;
                        assert(nws[0] == ws[0]);
                        assert forall|a: int| 0 <= a < nws.len() implies first_field(#[trigger] nws[a]) == ng.major
                            && vs.contains(nws[a]) by {
                            if a < ws.len() {
                                assert(nws[a] == ws[a]);
                                assert(d.contains(ws[a]));
                            } else {
                                assert(nws[a] == v);
                            }
                        }
                        assert forall|a: int, b: int| 0 <= a < b < nws.len() implies listed_before(vs, #[trigger] nws[a], #[trigger] nws[b]) by {
                            if b < ws.len() {
                                assert(nws[a] == ws[a] && nws[b] == ws[b]);
                                assert(listed_before(d, ws[a], ws[b]));
                            } else {
                                assert(nws[a] == ws[a] && nws[b] == v);
                                assert(d.contains(ws[a]));
                                let p = choose|p: int| 0 <= p < d.len() && d[p] == ws[a];
                                assert(vs[p] == ws[a]);
                                assert(vs[vs.len() - 1] == v);
                            }
                        }
                    } else {
                        assert(r[j] == c[j]);
                        assert forall|a: int| 0 <= a < c[j].versions.len() implies first_field(#[trigger] c[j].versions[a])
                            == c[j].major && vs.contains(c[j].versions[a]) by {
                            assert(d.contains(c[j].versions[a]));
                        }
                        assert forall|a: int, b: int| 0 <= a < b < c[j].versions.len() implies listed_before(vs, #[trigger] c[j].versions[a], #[trigger] c[j].versions[b]) by {
                            assert(listed_before(d, c[j].versions[a], c[j].versions[b]));
                        }
                    }
                }
                assert forall|k: int| 0 <= k < vs.len() implies in_group_of(r, first_field(#[trigger] vs[k]), vs[k]) by {
                    if k < d.len() {
                        assert(vs[k] == d[k]);
                        assert(in_group_of(c, first_field(d[k]), d[k]));
                        let w = choose|w: int| 0 <= w < c.len() && (#[trigger] c[w]).major == first_field(d[k]) && c[w].versions.contains(d[k]);
                        if w == i {
                            let y = choose|y: int| 0 <= y < g.versions.len() && g.versions[y] == d[k];
                            assert(r[i].versions[y] == d[k]);
                            assert(r[i].versions.contains(d[k]));
                        } else {
                            assert(r[w] == c[w]);
                        }
                        assert(r[w].major == first_field(vs[k]));
                    } else {
                        assert(vs[k] == v);
                        assert(r[i].versions[g.versions.len() as int] == v);
                        assert(r[i].versions.contains(v));
                        assert(r[i].major == m);
                    }
                }
            },
            None => {
                let ng = GroupView { major: m, is_lts: lts_by(marker, v), versions: seq![v], latest: v };
                assert(r == c.push(ng));
                assert forall|a: int, b: int| 0 <= a < r.len() && 0 <= b < r.len() && a != b implies (#[trigger] r[a]).major
                    != (#[trigger] r[b]).major by {
                    if a < c.len() && b < c.len() {
                        assert(c[a].major != c[b].major);
                    } else if a == c.len() {
                        assert(r[b] == c[b]);
                    } else {
                        assert(r[a] == c[a]);
                    }
                }
                assert forall|j: int| 0 <= j < r.len() implies flat_group_ok(vs, marker, #[trigger] r[j]) by {
                    if j < c.len() {
                        assert(r[j] == c[j]);
                        assert(flat_group_ok(d, marker, c[j]));
                        assert forall|a: int| 0 <= a < c[j].versions.len() implies first_field(#[trigger] c[j].versions[a])
                            == c[j].major && vs.contains(c[j].versions[a]) by {
                            assert(d.contains(c[j].versions[a]));
                        }
                        assert forall|a: int, b: int| 0 <= a < b < c[j].versions.len() implies listed_before(vs, #[trigger] c[j].versions[a], #[trigger] c[j].versions[b]) by {
                            assert(listed_before(d, c[j].versions[a], c[j].versions[b]));
                        }
                    } else {
                        assert(r[j] == ng);
                        assert(ng.versions[0] == v);
                        assert(vs.contains(v));
                    }
                }
                assert forall|k: int| 0 <= k < vs.len() implies in_group_of(r, first_field(#[trigger] vs[k]), vs[k]) by {
                    if k < d.len() {
                        assert(vs[k] == d[k]);
                        assert(in_group_of(c, first_field(d[k]), d[k]));
                        let w = choose|w: int| 0 <= w < c.len() && (#[trigger] c[w]).major == first_field(d[k]) && c[w].versions.contains(d[k]);
                        assert(r[w] == c[w]);
                    } else {
                        assert(vs[k] == v);
                        assert(r[c.len() as int] == ng);
                        assert(ng.versions[0] == v);
                        assert(ng.versions.contains(v));
                    }
                }
            },
        }
    }
}

/// Grouping a flat version list by first field: different groups have
/// different first fields; every listed version is in the group of its
/// first field; a group's versions are listed, of its first field, and in
/// the order of the list, so that when the list is newest first each
/// group is too and its latest version (its first) is its newest.
pub proof fn law_flat_groups(vs: Seq<Seq<char>>, marker: Option<Seq<char>>)
    ensures
        crate::order::pairwise(flat_groups(vs, marker), |a: GroupView, b: GroupView| a.major != b.major),
        forall|i: int| 0 <= i < flat_groups(vs, marker).len() ==> flat_group_ok(vs, marker, #[trigger] flat_groups(vs, marker)[i]),
        forall|k: int| 0 <= k < vs.len() ==> in_group_of(flat_groups(vs, marker), first_field(#[trigger] vs[k]), vs[k]),
        crate::order::sorted_for(vs, dotted_newer_first()) ==> forall|i: int|
            0 <= i < flat_groups(vs, marker).len() ==> crate::order::sorted_for(
                (#[trigger] flat_groups(vs, marker)[i]).versions,
                dotted_newer_first(),
            ),
{
    lemma_flat_groups(vs, marker);
    let g = flat_groups(vs, marker);
    if crate::order::sorted_for(vs, dotted_newer_first()) {
        assert forall|i: int| 0 <= i < g.len() implies crate::order::sorted_for((#[trigger] g[i]).versions, dotted_newer_first()) by {
            let ws = g[i].versions;
            assert(flat_group_ok(vs, marker, g[i]));
            assert forall|a: int, b: int| 0 <= a < b < ws.len() implies !(dotted_newer_first())(#[trigger] ws[b], #[trigger] ws[a]) by {
                assert(listed_before(vs, ws[a], ws[b]));
                let (p, q) = choose|p: int, q: int| 0 <= p < q < vs.len() && #[trigger] vs[p] == ws[a] && #[trigger] vs[q] == ws[b];
                assert(!(dotted_newer_first())(vs[q], vs[p]));
            }
        }
    }
}

// ---------------------------------------------------------------------------
// The layout of the data directory
// ---------------------------------------------------------------------------

/// The directories the start-up check makes in the data directory.
pub open spec fn standard_dirs_spec(platform: Platform, novaenv: Seq<char>) -> Seq<Seq<char>> {
    seq![
        join_spec(platform, novaenv, "installs"@),
        join_spec(platform, novaenv, "services"@),
        join_spec(platform, novaenv, "data"@),
        join_spec(platform, novaenv, "logs"@),
        join_spec(platform, novaenv, "run"@),
    ]
}

/// The directories the start-up check makes: `installs`, `services`,
/// `data`, `logs` and `run` in the data directory `novaenv`.
pub fn standard_dirs(platform: Platform, novaenv: &str) -> (r: Vec<String>)
    ensures
        strs_of(r@) == standard_dirs_spec(platform, novaenv@),
{
    let mut r: Vec<String> = Vec::new();
    r.push(path_join(platform, novaenv, "installs"));
    r.push(path_join(platform, novaenv, "services"));
    r.push(path_join(platform, novaenv, "data"));
    r.push(path_join(platform, novaenv, "logs"));
    r.push(path_join(platform, novaenv, "run"));
    assert(strs_of(r@) =~= standard_dirs_spec(platform, novaenv@));
    r
}

/// Where one installed version of a service keeps its files.
#[derive(Debug, Clone)]
pub struct ServicePaths {
    /// Its programs and configuration: `services/<name>/<version>`.
    pub dir: String,
    /// Its data, kept when it is uninstalled: `data/<name>/<version>`.
    pub data_dir: String,
    /// Its log: `logs/<name>-<version>.log`.
    pub log_file: String,
    /// Its pid: `run/<name>-<version>.pid`.
    pub pid_file: String,
    /// Its socket: `run/<name>-<version>.sock`.
    pub socket: String,
}

/// `<name>-<version><ext>`.
pub open spec fn file_of(name: Seq<char>, version: Seq<char>, ext: Seq<char>) -> Seq<char> {
    name + "-"@ + version + ext
}

fn file_name_of(name: &str, version: &str, ext: &str) -> (r: String)
    ensures
        r@ == file_of(name@, version@, ext@),
{
    let mut s = chars_of(name);
    push_str(&mut s, "-");
    push_str(&mut s, version);
    push_str(&mut s, ext);
    string_of(s.as_slice())
}

/// Where `version` of the service `name` keeps its files in the data
/// directory `novaenv`.
pub fn service_paths(platform: Platform, novaenv: &str, name: &str, version: &str) -> (r: ServicePaths)
    ensures
        r.dir@ == join_spec(
            platform,
            join_spec(platform, join_spec(platform, novaenv@, "services"@), name@),
            version@,
        ),
        r.data_dir@ == join_spec(platform, join_spec(platform, join_spec(platform, novaenv@, "data"@), name@), version@),
        r.log_file@ == join_spec(platform, join_spec(platform, novaenv@, "logs"@), file_of(name@, version@, ".log"@)),
        r.pid_file@ == join_spec(platform, join_spec(platform, novaenv@, "run"@), file_of(name@, version@, ".pid"@)),
        r.socket@ == join_spec(platform, join_spec(platform, novaenv@, "run"@), file_of(name@, version@, ".sock"@)),
{
    let services = path_join(platform, novaenv, "services");
    let data = path_join(platform, novaenv, "data");
    let logs = path_join(platform, novaenv, "logs");
    let run = path_join(platform, novaenv, "run");
    let sd = path_join(platform, services.as_str(), name);
    let dd = path_join(platform, data.as_str(), name);
    ServicePaths {
        dir: path_join(platform, sd.as_str(), version),
        data_dir: path_join(platform, dd.as_str(), version),
        log_file: path_join(platform, logs.as_str(), file_name_of(name, version, ".log").as_str()),
        pid_file: path_join(platform, run.as_str(), file_name_of(name, version, ".pid").as_str()),
        socket: path_join(platform, run.as_str(), file_name_of(name, version, ".sock").as_str()),
    }
}

// ---------------------------------------------------------------------------
// Trying sources in turn
// ---------------------------------------------------------------------------

/// What to do after trying one of several sources (download addresses,
/// package indexes) in order.
#[derive(Debug, Clone, Copy, PartialEq, Eq, Structural)]
pub enum Attempt {
    /// The source tried worked: stop.
    Done,
    /// Try the source at this position next.
    Next(usize),
    /// Every source failed: give up.
    Exhausted,
}

/// After trying the source at `tried` of `count` with outcome `ok`: stop
/// at the first success, else go on to the next source while there is
/// one.
pub open spec fn attempt_spec(count: usize, tried: usize, ok: bool) -> Attempt {
    if ok {
        Attempt::Done
    } else if tried + 1 < count {
        Attempt::Next((tried + 1) as usize)
    } else {
        Attempt::Exhausted
    }
}

/// What to do after trying the source at `tried` of `count`.
pub fn next_attempt(count: usize, tried: usize, ok: bool) -> (r: Attempt)
    requires
        tried < count,
    ensures
        r == attempt_spec(count, tried, ok),
{
    if ok {
        Attempt::Done
    } else if tried + 1 < count {
        Attempt::Next(tried + 1)
    } else {
        Attempt::Exhausted
    }
}

/// The sources tried, from the first, when `oks` tells which would work:
/// each at most once, in order, up to the first that works.
pub open spec fn tried_spec(count: usize, oks: Seq<bool>, tried: usize) -> Seq<usize>
    decreases count - tried,
{
    if tried >= count {
        seq![]
    } else {
        match attempt_spec(count, tried, tried < oks.len() && oks[tried as int]) {
            Attempt::Next(n) => seq![tried] + tried_spec(count, oks, n),
            _ => seq![tried],
        }
    }
}

/// Following `next_attempt` from the first source tries the sources in
/// order and stops at the first that works: it tries exactly those up to
/// the first success (all of them when none works).
pub proof fn law_attempts_in_order(count: usize, oks: Seq<bool>, from: usize)
    requires
        from < count,
        oks.len() == count,
    ensures
        ({
            let t = tried_spec(count, oks, from);
            &&& t.len() > 0
            &&& forall|k: int| 0 <= k < t.len() ==> #[trigger] t[k] == from + k
            &&& forall|k: int| 0 <= k < t.len() - 1 ==> !oks[#[trigger] t[k] as int]
            &&& (oks[t.last() as int] || t.last() == count - 1)
        }),
    decreases count - from,
{
    let t = tried_spec(count, oks, from);
    if !oks[from as int] && from + 1 < count {
        law_attempts_in_order(count, oks, (from + 1) as usize);
        let r = tried_spec(count, oks, (from + 1) as usize);
        assert(t == seq![from] + r);
        assert forall|k: int| 0 <= k < t.len() implies #[trigger] t[k] == from + k by {
            if k > 0 {
                assert(t[k] == r[k - 1]);
            }
        }
        assert forall|k: int| 0 <= k < t.len() - 1 implies !oks[#[trigger] t[k] as int] by {
            if k > 0 {
                assert(t[k] == r[k - 1]);
            }
        }
        assert(t.last() == r.last());
    } else {
        assert(t == seq![from]);
    }
}

} // verus!
