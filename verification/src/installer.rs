//! Installation: the managed directory, release lists grouped by major
//! version, download addresses and the checks before an uninstall.
use std::cmp::Ordering;
use vstd::prelude::*;
use crate::activation::Platform;
use crate::models::{
    display_name_of, AvailableVersion, AvailableVersionGroup, AvailableView, GroupView, InstallRequest,
    ManageInfo, ManagedRuntimeInfo, RuntimeKind, RuntimeVersion, VersionView,
};
use crate::runtimes::version_views;
use crate::platform::{
    file_name, file_name_spec, join_spec, path_join, path_starts_with, starts_with_path, replaces, lemma_join_under,
    lemma_under_trans, components, components_of,
};
use crate::runtimes::java::{extract_spec, extract_version, parse_release, release_spec};
use crate::sorting::text_order;
use crate::text::{has_prefix, has_suffix, ends_with, push_str, same, starts_with, strip_prefix, trim, trim_chars, without_prefix};
use crate::order::{
    lemma_insert_at, lemma_stable_sort_contains, lemma_stable_sort_pairwise, lemma_stable_sort_sorted, law_version_order,
    order_versions, pairwise, sorted_for, stable_sort, strict_weak, version_order, Order,
};
use crate::sorting::{group_newer_first, group_views, newer_first, sort_groups, sort_versions, VersionSort, relation_of};
use crate::text::{chars_of, join, join_with, owned, seqs_of, split, split_at_char, string_of, strs_of, lemma_split_nonempty};

verus! {

// ---------------------------------------------------------------------------
// Version order
// ---------------------------------------------------------------------------

/// The std ordering of an `Order`.
pub open spec fn std_ordering(o: Order) -> Ordering {
    match o {
        Order::Less => Ordering::Less,
        Order::Equal => Ordering::Equal,
        Order::Greater => Ordering::Greater,
    }
}

/// Compares two version strings number by number (`21.0.12 > 21.0.9`,
/// `1.24 > 1.23`, `1.24 == 1.24.0`).
pub fn compare_versions(a: &str, b: &str) -> (r: Ordering)
    ensures
        r == std_ordering(version_order(a@, b@)),
{
    let ca = chars_of(a);
    let cb = chars_of(b);
    match order_versions(ca.as_slice(), cb.as_slice()) {
        Order::Less => Ordering::Less,
        Order::Equal => Ordering::Equal,
        Order::Greater => Ordering::Greater,
    }
}

// ---------------------------------------------------------------------------
// Grouping by major version
// ---------------------------------------------------------------------------

/// At most the first two pieces.
pub open spec fn first_two(ps: Seq<Seq<char>>) -> Seq<Seq<char>> {
    if ps.len() >= 2 {
        ps.take(2)
    } else {
        ps
    }
}

/// The major version of `version`: for Go its first two dotted fields, for
/// the others its first one.
pub open spec fn major_spec(kind: RuntimeKind, version: Seq<char>) -> Seq<char> {
    if kind == RuntimeKind::Go {
        join(first_two(split(version, '.')), '.')
    } else {
        split(version, '.')[0]
    }
}

/// The major version of `version`.
pub fn major_of(kind: RuntimeKind, version: &str) -> (r: String)
    ensures
        r@ == major_spec(kind, version@),
{
    let v = chars_of(version);
    let mut pieces = split_at_char(v.as_slice(), '.');
    proof {
        lemma_split_nonempty(v@, '.');
    }
    if kind == RuntimeKind::Go {
        if pieces.len() >= 2 {
            pieces.truncate(2);
            assert(seqs_of(pieces@) =~= first_two(split(v@, '.')));
        }
        let joined = join_with(&pieces, '.');
        string_of(joined.as_slice())
    } else {
        string_of(pieces[0].as_slice())
    }
}

/// The index of the first group whose major version is `major`.
pub open spec fn find_group(gs: Seq<GroupView>, major: Seq<char>) -> Option<int>
    decreases gs.len(),
{
    if gs.len() == 0 {
        None
    } else if gs[0].major == major {
        Some(0)
    } else {
        match find_group(gs.drop_first(), major) {
            Some(i) => Some(i + 1),
            None => None,
        }
    }
}

/// What `find_group` returns.
pub proof fn lemma_find_group(gs: Seq<GroupView>, major: Seq<char>)
    ensures
        match find_group(gs, major) {
            Some(i) => 0 <= i < gs.len() && gs[i].major == major && forall|j: int|
                0 <= j < i ==> gs[j].major != major,
            None => forall|j: int| 0 <= j < gs.len() ==> gs[j].major != major,
        },
    decreases gs.len(),
{
    if gs.len() > 0 && gs[0].major != major {
        lemma_find_group(gs.drop_first(), major);
        assert forall|j: int| 0 < j < gs.len() implies gs[j] == gs.drop_first()[j - 1] by {}
    }
}

/// `v` added to the groups: to the group of its major version (once, and
/// making the group long-term supported if `v` is), or as a new group.
pub open spec fn add_version(gs: Seq<GroupView>, kind: RuntimeKind, v: AvailableView) -> Seq<GroupView> {
    let m = major_spec(kind, v.version);
    match find_group(gs, m) {
        Some(i) => gs.update(
            i,
            GroupView {
                major: gs[i].major,
                is_lts: gs[i].is_lts || v.is_lts,
                versions: if gs[i].versions.contains(v.version) {
                    gs[i].versions
                } else {
                    gs[i].versions.push(v.version)
                },
                latest: gs[i].latest,
            },
        ),
        None => gs.push(GroupView { major: m, is_lts: v.is_lts, versions: seq![v.version], latest: seq![] }),
    }
}

/// The groups of `vs`, in the order in which their majors first occur.
pub open spec fn collect_groups(kind: RuntimeKind, vs: Seq<AvailableView>) -> Seq<GroupView>
    decreases vs.len(),
{
    if vs.len() == 0 {
        seq![]
    } else {
        add_version(collect_groups(kind, vs.drop_last()), kind, vs.last())
    }
}

/// A group with its versions newest first and its latest version set.
pub open spec fn finish_group(g: GroupView) -> GroupView {
    let vs = stable_sort(g.versions, newer_first());
    GroupView {
        major: g.major,
        is_lts: g.is_lts,
        versions: vs,
        latest: if vs.len() > 0 {
            vs[0]
        } else {
            seq![]
        },
    }
}

/// The versions of `vs` grouped by major version: groups newest first,
/// versions in each group newest first (both stable for equal versions).
pub open spec fn grouped(kind: RuntimeKind, vs: Seq<AvailableView>) -> Seq<GroupView> {
    stable_sort(collect_groups(kind, vs).map_values(|g: GroupView| finish_group(g)), group_newer_first())
}

/// The views of a list of available versions.
pub open spec fn available_views(vs: Seq<AvailableVersion>) -> Seq<AvailableView> {
    Seq::new(vs.len(), |i: int| vs[i]@)
}

/// Whether `list` holds `s`.
pub(crate) fn holds(list: &Vec<String>, s: &String) -> (r: bool)
    ensures
        r == strs_of(list@).contains(s@),
{
    let mut i: usize = 0;
    while i < list.len()
        invariant
            i <= list@.len(),
            forall|j: int| 0 <= j < i ==> list@[j]@ != s@,
        decreases list@.len() - i,
    {
        if list[i] == *s {
            assert(strs_of(list@)[i as int] == s@);
            return true;
        }
        i = i + 1;
    }
    assert forall|j: int| 0 <= j < strs_of(list@).len() implies strs_of(list@)[j] != s@ by {
        assert(strs_of(list@)[j] == list@[j]@);
    }
    false
}

/// The index of the first group whose major version is `major`.
pub(crate) fn position_of_major(gs: &Vec<AvailableVersionGroup>, major: &String) -> (r: Option<usize>)
    ensures
        match find_group(group_views(gs@), major@) {
            Some(i) => r == Some(i as usize),
            None => r is None,
        },
{
    let ghost v = group_views(gs@);
    let mut i: usize = 0;
    while i < gs.len()
        invariant
            v == group_views(gs@),
            i <= gs@.len(),
            forall|j: int| 0 <= j < i ==> v[j].major != major@,
        decreases gs@.len() - i,
    {
        if gs[i].major == *major {
            assert(v[i as int].major == major@);
            proof {
                lemma_find_group(v, major@);
                if let Some(w) = find_group(v, major@) {
                    if w < i {
                        assert(v[w].major != major@);
                    }
                    if w > i {
                        assert(v[i as int].major != major@);
                    }
                }
            }
            return Some(i);
        }
        i = i + 1;
    }
    proof {
        lemma_find_group(v, major@);
        if let Some(w) = find_group(v, major@) {
            assert(v[w].major != major@);
        }
    }
    None
}

/// Groups a flat list of versions by major version (for Go the first two
/// fields, `1.24`; otherwise the first, `21`): each version once in the
/// group of its major, a group long-term supported when one of its versions
/// is, groups and versions newest first.
pub fn group_versions(kind: RuntimeKind, versions: Vec<AvailableVersion>) -> (r: Vec<
    AvailableVersionGroup,
>)
    ensures
        group_views(r@) == grouped(kind, available_views(versions@)),
{
    let ghost vs = available_views(versions@);
    let mut groups: Vec<AvailableVersionGroup> = Vec::new();
    let mut k: usize = 0;
    assert(vs.take(0) =~= Seq::<AvailableView>::empty());
    while k < versions.len()
        invariant
            k <= versions@.len(),
            vs == available_views(versions@),
            group_views(groups@) == collect_groups(kind, vs.take(k as int)),
        decreases versions@.len() - k,
    {
        let v = &versions[k];
        let major = major_of(kind, v.version.as_str());
        let ghost before = group_views(groups@);
        proof {
            let t = vs.take(k + 1);
            assert(t.drop_last() =~= vs.take(k as int));
            assert(t.last() == v@);
        }
        proof {
            lemma_find_group(before, major@);
        }
        let glen = groups.len();
        let pos = position_of_major(&groups, &major);
        match pos {
            Some(i) => {
                proof {
                    lemma_find_group(before, major@);
                    assert(find_group(before, major@) is Some);
                    let w = find_group(before, major@)->0;
                    assert(w < glen);
                    assert(w == i);
                }
                let ghost gv = groups@;
                let mut g = groups.remove(i);
                let ghost old_g = g@;
                assert(old_g == before[i as int]);
                assert(old_g.versions =~= strs_of(g.versions@));
                if !holds(&g.versions, &v.version) {
                    g.versions.push(v.version.clone());
                    assert(g@.versions =~= old_g.versions.push(v.version@));
                }
                if v.is_lts {
                    g.is_lts = true;
                }
                let ghost new_g = g@;
                groups.insert(i, g);
                proof {
                    assert(groups@ =~= gv.update(i as int, g));
                    let want = add_version(before, kind, v@);
                    assert(find_group(before, major_spec(kind, v@.version)) == Some(i as int));
                    assert(new_g.major == want[i as int].major);
                    assert(new_g.is_lts == want[i as int].is_lts);
                    assert(new_g.latest == want[i as int].latest);
                    assert(new_g.versions =~= want[i as int].versions);
                    assert(new_g == want[i as int]);
                    assert forall|x: int| 0 <= x < want.len() implies #[trigger] group_views(groups@)[x] == want[x] by {
                        if x != i {
                            assert(groups@[x] == gv[x]);
                        }
                    }
                }
                assert(group_views(groups@) =~= add_version(before, kind, v@));
            },
            None => {
                let mut vv: Vec<String> = Vec::new();
                vv.push(v.version.clone());
                let g = AvailableVersionGroup {
                    major: major,
                    is_lts: v.is_lts,
                    versions: vv,
                    latest: String::new(),
                };
                assert(g@.versions =~= seq![v.version@]);
                groups.push(g);
                assert(group_views(groups@) =~= add_version(before, kind, v@));
            },
        }
        k = k + 1;
    }
    assert(vs.take(versions@.len() as int) =~= vs);
    let ghost collected = group_views(groups@);
    // Each group: versions newest first, latest the first of them.
    let mut finished: Vec<AvailableVersionGroup> = Vec::new();
    let mut j: usize = 0;
    let n = groups.len();
    let mut rev: Vec<AvailableVersionGroup> = Vec::new();
    while groups.len() > 0
        invariant
            groups@.len() + rev@.len() == n,
            n == collected.len(),
            forall|x: int| 0 <= x < groups@.len() ==> #[trigger] groups@[x]@ == collected[x],
            forall|x: int| 0 <= x < rev@.len() ==> #[trigger] rev@[x]@ == collected[n - 1 - x],
        decreases groups@.len(),
    {
        let g = groups.pop().unwrap();
        rev.push(g);
    }
    while j < n
        invariant
            j <= n,
            n == collected.len(),
            rev@.len() == n - j,
            finished@.len() == j,
            forall|x: int| 0 <= x < rev@.len() ==> #[trigger] rev@[x]@ == collected[n - 1 - x],
            group_views(finished@) == collected.take(j as int).map_values(|g: GroupView| finish_group(g)),
        decreases n - j,
    {
        let g = rev.pop().unwrap();
        assert(g@ == collected[j as int]);
        let sorted = sort_versions(&g.versions, VersionSort::NewestFirst);
        let latest = if sorted.len() > 0 {
            sorted[0].clone()
        } else {
            String::new()
        };
        let h = AvailableVersionGroup {
            major: g.major,
            is_lts: g.is_lts,
            versions: sorted,
            latest: latest,
        };
        proof {
            assert(strs_of(g.versions@) =~= g@.versions);
            assert(h@.versions =~= strs_of(h.versions@));
            assert(h@ == finish_group(g@));
        }
        let ghost fb = finished@;
        finished.push(h);
        proof {
            let want = collected.take(j + 1).map_values(|g: GroupView| finish_group(g));
            let had = collected.take(j as int).map_values(|g: GroupView| finish_group(g));
            assert forall|x: int| 0 <= x < j implies #[trigger] group_views(finished@)[x] == want[x] by {
                assert(finished@[x] == fb[x]);
                assert(group_views(fb)[x] == had[x]);
            }
            assert(group_views(finished@) =~= want);
        }
        j = j + 1;
    }
    assert(collected.take(n as int) =~= collected);
    sort_groups(finished)
}

// ---------------------------------------------------------------------------
// Directories
// ---------------------------------------------------------------------------

/// The directory of the library's data: `.novaenv` in the home directory
/// (in the current directory when there is no home).
pub open spec fn novaenv_dir_spec(platform: Platform, home: Option<Seq<char>>) -> Seq<char> {
    join_spec(
        platform,
        match home {
            Some(h) => h,
            None => "."@,
        },
        ".novaenv"@,
    )
}

/// The directory of the library's data; `home` is the home directory.
pub fn novaenv_dir(platform: Platform, home: Option<&str>) -> (r: String)
    ensures
        r@ == novaenv_dir_spec(
            platform,
            match home {
                Some(h) => Some(h@),
                None => None,
            },
        ),
{
    let h = match home {
        Some(h) => h,
        None => ".",
    };
    path_join(platform, h, ".novaenv")
}

/// The managed installations: `installs` in the data directory.
pub open spec fn installs_dir_spec(platform: Platform, home: Option<Seq<char>>) -> Seq<char> {
    join_spec(platform, novaenv_dir_spec(platform, home), "installs"@)
}

/// The managed installations.
pub fn installs_dir(platform: Platform, home: Option<&str>) -> (r: String)
    ensures
        r@ == installs_dir_spec(
            platform,
            match home {
                Some(h) => Some(h@),
                None => None,
            },
        ),
{
    let d = novaenv_dir(platform, home);
    path_join(platform, d.as_str(), "installs")
}

/// Whether `path` lies in the managed installations `installs_dir`
/// (component by component), so that it may be uninstalled.
pub fn is_managed(platform: Platform, path: &str, installs_dir: &str) -> (r: bool)
    ensures
        r == path_starts_with(platform, path@, installs_dir@),
{
    starts_with_path(platform, path, installs_dir)
}

/// The directory of a runtime in the managed installations.
pub open spec fn kind_dir_spec(kind: RuntimeKind) -> Seq<char> {
    match kind {
        RuntimeKind::Java => "java"@,
        RuntimeKind::Node => "node"@,
        RuntimeKind::Go => "go"@,
        RuntimeKind::Maven => "maven"@,
        RuntimeKind::Python => "python"@,
        RuntimeKind::Rust => "rust"@,
    }
}

/// The directory of a runtime in the managed installations.
pub fn kind_dir(kind: RuntimeKind) -> (r: &'static str)
    ensures
        r@ == kind_dir_spec(kind),
{
    match kind {
        RuntimeKind::Java => "java",
        RuntimeKind::Node => "node",
        RuntimeKind::Go => "go",
        RuntimeKind::Maven => "maven",
        RuntimeKind::Python => "python",
        RuntimeKind::Rust => "rust",
    }
}

/// The file of the cached release list of `kind`:
/// `cache/versions-<kind>.json` in the data directory.
pub open spec fn cache_path_spec(platform: Platform, novaenv: Seq<char>, kind: RuntimeKind) -> Seq<char> {
    join_spec(platform, join_spec(platform, novaenv, "cache"@), "versions-"@ + kind_dir_spec(kind) + ".json"@)
}

/// The file of the cached release list of `kind`.
pub fn cache_path(platform: Platform, novaenv: &str, kind: RuntimeKind) -> (r: String)
    ensures
        r@ == cache_path_spec(platform, novaenv@, kind),
{
    let c = path_join(platform, novaenv, "cache");
    let mut f = chars_of("versions-");
    push_str(&mut f, kind_dir(kind));
    push_str(&mut f, ".json");
    path_join(platform, c.as_str(), string_of(f.as_slice()).as_str())
}

// ---------------------------------------------------------------------------
// Download addresses
// ---------------------------------------------------------------------------

/// The processor the library runs on.
#[derive(Debug, Clone, Copy, PartialEq, Eq, Structural)]
pub enum Arch {
    Aarch64,
    X64,
}

/// The extension of release archives: `zip` on Windows, else `tar.gz`.
pub open spec fn archive_ext(platform: Platform) -> Seq<char> {
    if platform == Platform::Windows {
        "zip"@
    } else {
        "tar.gz"@
    }
}

/// The system and processor names of Adoptium.
pub open spec fn adoptium_target(platform: Platform, arch: Arch) -> (Seq<char>, Seq<char>) {
    (
        match platform {
            Platform::MacOs => "mac"@,
            Platform::Windows => "windows"@,
            Platform::Linux => "linux"@,
        },
        if arch == Arch::Aarch64 {
            "aarch64"@
        } else {
            "x64"@
        },
    )
}

/// The system and processor names of nodejs.org (Windows builds are x64).
pub open spec fn node_target(platform: Platform, arch: Arch) -> (Seq<char>, Seq<char>) {
    match platform {
        Platform::MacOs => ("darwin"@, if arch == Arch::Aarch64 {
            "arm64"@
        } else {
            "x64"@
        }),
        Platform::Windows => ("win"@, "x64"@),
        Platform::Linux => ("linux"@, if arch == Arch::Aarch64 {
            "arm64"@
        } else {
            "x64"@
        }),
    }
}

/// The system and processor names of go.dev (Windows builds are amd64).
pub open spec fn go_target(platform: Platform, arch: Arch) -> (Seq<char>, Seq<char>) {
    match platform {
        Platform::MacOs => ("darwin"@, if arch == Arch::Aarch64 {
            "arm64"@
        } else {
            "amd64"@
        }),
        Platform::Windows => ("windows"@, "amd64"@),
        Platform::Linux => ("linux"@, if arch == Arch::Aarch64 {
            "arm64"@
        } else {
            "amd64"@
        }),
    }
}

/// `p` followed by `t` ends with `t`.
proof fn lemma_ends_with_concat(p: Seq<char>, t: Seq<char>)
    ensures
        ends_with(p + t, t),
{
    assert((p + t).skip((p + t).len() - t.len()) =~= t);
}

/// The Node.js address names the system and processor asked for: on macOS
/// and Linux an ARM machine (`Aarch64`, such as Apple Silicon) gets the
/// `arm64` build and an Intel one the `x64` build; Windows gets the x64
/// zip.
#[verifier::spinoff_prover]
pub proof fn law_node_download_target(version: Seq<char>, downloads: Seq<char>)
    ensures
        download_spec(RuntimeKind::Node, version, Platform::MacOs, Arch::Aarch64, downloads) matches Ok(q) && ends_with(q.0, "-darwin-arm64.tar.gz"@),
        download_spec(RuntimeKind::Node, version, Platform::MacOs, Arch::X64, downloads) matches Ok(q) && ends_with(q.0, "-darwin-x64.tar.gz"@),
        download_spec(RuntimeKind::Node, version, Platform::Linux, Arch::Aarch64, downloads) matches Ok(q) && ends_with(q.0, "-linux-arm64.tar.gz"@),
        download_spec(RuntimeKind::Node, version, Platform::Linux, Arch::X64, downloads) matches Ok(q) && ends_with(q.0, "-linux-x64.tar.gz"@),
        download_spec(RuntimeKind::Node, version, Platform::Windows, Arch::Aarch64, downloads) matches Ok(q) && ends_with(q.0, "-win-x64.zip"@),
        download_spec(RuntimeKind::Node, version, Platform::Windows, Arch::X64, downloads) matches Ok(q) && ends_with(q.0, "-win-x64.zip"@),
{
    reveal_strlit("-");
    reveal_strlit("-darwin-arm64.tar.gz");
    reveal_strlit("-darwin-x64.tar.gz");
    reveal_strlit("-linux-arm64.tar.gz");
    reveal_strlit("-linux-x64.tar.gz");
    reveal_strlit("-win-x64.zip");
    reveal_strlit(".");
    reveal_strlit("/node-v");
    reveal_strlit("arm64");
    reveal_strlit("darwin");
    reveal_strlit("https://nodejs.org/dist/v");
    reveal_strlit("linux");
    reveal_strlit("tar.gz");
    reveal_strlit("win");
    reveal_strlit("x64");
    reveal_strlit("zip");
    assert(download_spec(RuntimeKind::Node, version, Platform::MacOs, Arch::Aarch64, downloads)->Ok_0.0 =~= "https://nodejs.org/dist/v"@ + version + "/node-v"@ + version + "-darwin-arm64.tar.gz"@);
    assert(download_spec(RuntimeKind::Node, version, Platform::MacOs, Arch::X64, downloads)->Ok_0.0 =~= "https://nodejs.org/dist/v"@ + version + "/node-v"@ + version + "-darwin-x64.tar.gz"@);
    assert(download_spec(RuntimeKind::Node, version, Platform::Linux, Arch::Aarch64, downloads)->Ok_0.0 =~= "https://nodejs.org/dist/v"@ + version + "/node-v"@ + version + "-linux-arm64.tar.gz"@);
    assert(download_spec(RuntimeKind::Node, version, Platform::Linux, Arch::X64, downloads)->Ok_0.0 =~= "https://nodejs.org/dist/v"@ + version + "/node-v"@ + version + "-linux-x64.tar.gz"@);
    assert(download_spec(RuntimeKind::Node, version, Platform::Windows, Arch::Aarch64, downloads)->Ok_0.0 =~= "https://nodejs.org/dist/v"@ + version + "/node-v"@ + version + "-win-x64.zip"@);
    assert(download_spec(RuntimeKind::Node, version, Platform::Windows, Arch::X64, downloads)->Ok_0.0 =~= "https://nodejs.org/dist/v"@ + version + "/node-v"@ + version + "-win-x64.zip"@);
    assert forall|t: Seq<char>| #[trigger] ends_with("https://nodejs.org/dist/v"@ + version + "/node-v"@ + version + t, t) by {
        lemma_ends_with_concat("https://nodejs.org/dist/v"@ + version + "/node-v"@ + version, t);
    }
}

/// The Go address names the system and processor asked for: on macOS and
/// Linux an ARM machine (`Aarch64`) gets the `arm64` build and an Intel one
/// the `amd64` build; Windows gets the amd64 zip.
#[verifier::spinoff_prover]
pub proof fn law_go_download_target(version: Seq<char>, downloads: Seq<char>)
    ensures
        download_spec(RuntimeKind::Go, version, Platform::MacOs, Arch::Aarch64, downloads) matches Ok(q) && ends_with(q.0, ".darwin-arm64.tar.gz"@),
        download_spec(RuntimeKind::Go, version, Platform::MacOs, Arch::X64, downloads) matches Ok(q) && ends_with(q.0, ".darwin-amd64.tar.gz"@),
        download_spec(RuntimeKind::Go, version, Platform::Linux, Arch::Aarch64, downloads) matches Ok(q) && ends_with(q.0, ".linux-arm64.tar.gz"@),
        download_spec(RuntimeKind::Go, version, Platform::Linux, Arch::X64, downloads) matches Ok(q) && ends_with(q.0, ".linux-amd64.tar.gz"@),
        download_spec(RuntimeKind::Go, version, Platform::Windows, Arch::Aarch64, downloads) matches Ok(q) && ends_with(q.0, ".windows-amd64.zip"@),
        download_spec(RuntimeKind::Go, version, Platform::Windows, Arch::X64, downloads) matches Ok(q) && ends_with(q.0, ".windows-amd64.zip"@),
{
    reveal_strlit("-");
    reveal_strlit(".");
    reveal_strlit(".darwin-amd64.tar.gz");
    reveal_strlit(".darwin-arm64.tar.gz");
    reveal_strlit(".linux-amd64.tar.gz");
    reveal_strlit(".linux-arm64.tar.gz");
    reveal_strlit(".windows-amd64.zip");
    reveal_strlit("amd64");
    reveal_strlit("arm64");
    reveal_strlit("darwin");
    reveal_strlit("https://go.dev/dl/go");
    reveal_strlit("linux");
    reveal_strlit("tar.gz");
    reveal_strlit("windows");
    reveal_strlit("zip");
    assert(download_spec(RuntimeKind::Go, version, Platform::MacOs, Arch::Aarch64, downloads)->Ok_0.0 =~= "https://go.dev/dl/go"@ + version + ".darwin-arm64.tar.gz"@);
    assert(download_spec(RuntimeKind::Go, version, Platform::MacOs, Arch::X64, downloads)->Ok_0.0 =~= "https://go.dev/dl/go"@ + version + ".darwin-amd64.tar.gz"@);
    assert(download_spec(RuntimeKind::Go, version, Platform::Linux, Arch::Aarch64, downloads)->Ok_0.0 =~= "https://go.dev/dl/go"@ + version + ".linux-arm64.tar.gz"@);
    assert(download_spec(RuntimeKind::Go, version, Platform::Linux, Arch::X64, downloads)->Ok_0.0 =~= "https://go.dev/dl/go"@ + version + ".linux-amd64.tar.gz"@);
    assert(download_spec(RuntimeKind::Go, version, Platform::Windows, Arch::Aarch64, downloads)->Ok_0.0 =~= "https://go.dev/dl/go"@ + version + ".windows-amd64.zip"@);
    assert(download_spec(RuntimeKind::Go, version, Platform::Windows, Arch::X64, downloads)->Ok_0.0 =~= "https://go.dev/dl/go"@ + version + ".windows-amd64.zip"@);
    assert forall|t: Seq<char>| #[trigger] ends_with("https://go.dev/dl/go"@ + version + t, t) by {
        lemma_ends_with_concat("https://go.dev/dl/go"@ + version, t);
    }
}

/// The Temurin address names the system and processor asked for: `aarch64`
/// for an ARM machine (`Aarch64`), `x64` for an Intel one, on every system.
#[verifier::spinoff_prover]
pub proof fn law_java_download_target(version: Seq<char>, downloads: Seq<char>)
    ensures
        download_spec(RuntimeKind::Java, version, Platform::MacOs, Arch::Aarch64, downloads) matches Ok(q) && ends_with(q.0, "/mac/aarch64/jdk/hotspot/normal/eclipse"@),
        download_spec(RuntimeKind::Java, version, Platform::MacOs, Arch::X64, downloads) matches Ok(q) && ends_with(q.0, "/mac/x64/jdk/hotspot/normal/eclipse"@),
        download_spec(RuntimeKind::Java, version, Platform::Linux, Arch::Aarch64, downloads) matches Ok(q) && ends_with(q.0, "/linux/aarch64/jdk/hotspot/normal/eclipse"@),
        download_spec(RuntimeKind::Java, version, Platform::Linux, Arch::X64, downloads) matches Ok(q) && ends_with(q.0, "/linux/x64/jdk/hotspot/normal/eclipse"@),
        download_spec(RuntimeKind::Java, version, Platform::Windows, Arch::Aarch64, downloads) matches Ok(q) && ends_with(q.0, "/windows/aarch64/jdk/hotspot/normal/eclipse"@),
        download_spec(RuntimeKind::Java, version, Platform::Windows, Arch::X64, downloads) matches Ok(q) && ends_with(q.0, "/windows/x64/jdk/hotspot/normal/eclipse"@),
{
    reveal_strlit("/");
    reveal_strlit("/ga");
    reveal_strlit("/ga/");
    reveal_strlit("/jdk/hotspot/normal/eclipse");
    reveal_strlit("/linux/aarch64/jdk/hotspot/normal/eclipse");
    reveal_strlit("/linux/x64/jdk/hotspot/normal/eclipse");
    reveal_strlit("/mac/aarch64/jdk/hotspot/normal/eclipse");
    reveal_strlit("/mac/x64/jdk/hotspot/normal/eclipse");
    reveal_strlit("/windows/aarch64/jdk/hotspot/normal/eclipse");
    reveal_strlit("/windows/x64/jdk/hotspot/normal/eclipse");
    reveal_strlit("aarch64");
    reveal_strlit("https://api.adoptium.net/v3/binary/latest/");
    reveal_strlit("linux");
    reveal_strlit("mac");
    reveal_strlit("windows");
    reveal_strlit("x64");
    assert(download_spec(RuntimeKind::Java, version, Platform::MacOs, Arch::Aarch64, downloads)->Ok_0.0 =~= "https://api.adoptium.net/v3/binary/latest/"@ + version + "/ga"@ + "/mac/aarch64/jdk/hotspot/normal/eclipse"@);
    assert(download_spec(RuntimeKind::Java, version, Platform::MacOs, Arch::X64, downloads)->Ok_0.0 =~= "https://api.adoptium.net/v3/binary/latest/"@ + version + "/ga"@ + "/mac/x64/jdk/hotspot/normal/eclipse"@);
    assert(download_spec(RuntimeKind::Java, version, Platform::Linux, Arch::Aarch64, downloads)->Ok_0.0 =~= "https://api.adoptium.net/v3/binary/latest/"@ + version + "/ga"@ + "/linux/aarch64/jdk/hotspot/normal/eclipse"@);
    assert(download_spec(RuntimeKind::Java, version, Platform::Linux, Arch::X64, downloads)->Ok_0.0 =~= "https://api.adoptium.net/v3/binary/latest/"@ + version + "/ga"@ + "/linux/x64/jdk/hotspot/normal/eclipse"@);
    assert(download_spec(RuntimeKind::Java, version, Platform::Windows, Arch::Aarch64, downloads)->Ok_0.0 =~= "https://api.adoptium.net/v3/binary/latest/"@ + version + "/ga"@ + "/windows/aarch64/jdk/hotspot/normal/eclipse"@);
    assert(download_spec(RuntimeKind::Java, version, Platform::Windows, Arch::X64, downloads)->Ok_0.0 =~= "https://api.adoptium.net/v3/binary/latest/"@ + version + "/ga"@ + "/windows/x64/jdk/hotspot/normal/eclipse"@);
    assert forall|t: Seq<char>| #[trigger] ends_with("https://api.adoptium.net/v3/binary/latest/"@ + version + "/ga"@ + t, t) by {
        lemma_ends_with_concat("https://api.adoptium.net/v3/binary/latest/"@ + version + "/ga"@, t);
    }
}

/// The message for a runtime that the installer does not download.
pub open spec fn unsupported_install(kind: RuntimeKind) -> Seq<char> {
    "暂不支持安装 "@ + display_name_of(kind)
}

/// Where a release of `kind` at `version` is downloaded from, and the
/// archive it is saved as in `downloads`: Temurin from Adoptium, Node.js
/// from nodejs.org, Go from go.dev.
pub open spec fn download_spec(
    kind: RuntimeKind,
    version: Seq<char>,
    platform: Platform,
    arch: Arch,
    downloads: Seq<char>,
) -> Result<(Seq<char>, Seq<char>), Seq<char>> {
    let ext = archive_ext(platform);
    match kind {
        RuntimeKind::Java => {
            let t = adoptium_target(platform, arch);
            Ok(
                (
                    "https://api.adoptium.net/v3/binary/latest/"@ + version + "/ga/"@ + t.0 + "/"@ + t.1
                        + "/jdk/hotspot/normal/eclipse"@,
                    join_spec(platform, downloads, "temurin-"@ + version + "."@ + ext),
                ),
            )
        },
        RuntimeKind::Node => {
            let t = node_target(platform, arch);
            Ok(
                (
                    "https://nodejs.org/dist/v"@ + version + "/node-v"@ + version + "-"@ + t.0 + "-"@ + t.1 + "."@
                        + ext,
                    join_spec(platform, downloads, "node-v"@ + version + "."@ + ext),
                ),
            )
        },
        RuntimeKind::Go => {
            let t = go_target(platform, arch);
            Ok(
                (
                    "https://go.dev/dl/go"@ + version + "."@ + t.0 + "-"@ + t.1 + "."@ + ext,
                    join_spec(platform, downloads, "go"@ + version + "."@ + ext),
                ),
            )
        },
        _ => Err(unsupported_install(kind)),
    }
}

/// Where a release is downloaded from, and the archive it is saved as.
pub fn download_url(kind: RuntimeKind, version: &str, platform: Platform, arch: Arch, downloads: &str) -> (r: Result<
    (String, String),
    String,
>)
    ensures
        match download_spec(kind, version@, platform, arch, downloads@) {
            Ok(p) => r matches Ok(q) && q.0@ == p.0 && q.1@ == p.1,
            Err(e) => r matches Err(m) && m@ == e,
        },
{
    let ext = if platform == Platform::Windows {
        "zip"
    } else {
        "tar.gz"
    };
    match kind {
        RuntimeKind::Java => {
            let os = match platform {
                Platform::MacOs => "mac",
                Platform::Windows => "windows",
                Platform::Linux => "linux",
            };
            let a = if arch == Arch::Aarch64 {
                "aarch64"
            } else {
                "x64"
            };
            let mut u = chars_of("https://api.adoptium.net/v3/binary/latest/");
            push_str(&mut u, version);
            push_str(&mut u, "/ga/");
            push_str(&mut u, os);
            push_str(&mut u, "/");
            push_str(&mut u, a);
            push_str(&mut u, "/jdk/hotspot/normal/eclipse");
            let mut f = chars_of("temurin-");
            push_str(&mut f, version);
            push_str(&mut f, ".");
            push_str(&mut f, ext);
            let file = string_of(f.as_slice());
            Ok((string_of(u.as_slice()), path_join(platform, downloads, file.as_str())))
        },
        RuntimeKind::Node => {
            let (os, a) = match platform {
                Platform::MacOs => ("darwin", if arch == Arch::Aarch64 {
                    "arm64"
                } else {
                    "x64"
                }),
                Platform::Windows => ("win", "x64"),
                Platform::Linux => ("linux", if arch == Arch::Aarch64 {
                    "arm64"
                } else {
                    "x64"
                }),
            };
            let mut u = chars_of("https://nodejs.org/dist/v");
            push_str(&mut u, version);
            push_str(&mut u, "/node-v");
            push_str(&mut u, version);
            push_str(&mut u, "-");
            push_str(&mut u, os);
            push_str(&mut u, "-");
            push_str(&mut u, a);
            push_str(&mut u, ".");
            push_str(&mut u, ext);
            let mut f = chars_of("node-v");
            push_str(&mut f, version);
            push_str(&mut f, ".");
            push_str(&mut f, ext);
            let file = string_of(f.as_slice());
            Ok((string_of(u.as_slice()), path_join(platform, downloads, file.as_str())))
        },
        RuntimeKind::Go => {
            let (os, a) = match platform {
                Platform::MacOs => ("darwin", if arch == Arch::Aarch64 {
                    "arm64"
                } else {
                    "amd64"
                }),
                Platform::Windows => ("windows", "amd64"),
                Platform::Linux => ("linux", if arch == Arch::Aarch64 {
                    "arm64"
                } else {
                    "amd64"
                }),
            };
            let mut u = chars_of("https://go.dev/dl/go");
            push_str(&mut u, version);
            push_str(&mut u, ".");
            push_str(&mut u, os);
            push_str(&mut u, "-");
            push_str(&mut u, a);
            push_str(&mut u, ".");
            push_str(&mut u, ext);
            let mut f = chars_of("go");
            push_str(&mut f, version);
            push_str(&mut f, ".");
            push_str(&mut f, ext);
            let file = string_of(f.as_slice());
            Ok((string_of(u.as_slice()), path_join(platform, downloads, file.as_str())))
        },
        _ => {
            let mut m = chars_of("暂不支持安装 ");
            push_str(&mut m, kind.display_name());
            Err(string_of(m.as_slice()))
        },
    }
}

// ---------------------------------------------------------------------------
// Installing
// ---------------------------------------------------------------------------

/// The version asked for, trimmed; an error when it is blank.
pub fn requested_version(request: &InstallRequest) -> (r: Result<String, String>)
    ensures
        trim(request.version@).len() > 0 ==> (r matches Ok(v) && v@ == trim(request.version@)),
        trim(request.version@).len() == 0 ==> (r matches Err(e) && e@ == "版本号不能为空"@),
{
    let t = trim_chars(chars_of(request.version.as_str()).as_slice());
    if t.len() == 0 {
        return Err(owned("版本号不能为空"));
    }
    Ok(string_of(t.as_slice()))
}

/// The directory an archive of `kind` is unpacked into:
/// `_downloads/extract-<kind>` in the managed installations.
pub open spec fn extract_dir_spec(platform: Platform, installs: Seq<char>, kind: RuntimeKind) -> Seq<char> {
    join_spec(platform, join_spec(platform, installs, "_downloads"@), "extract-"@ + kind_dir_spec(kind))
}

/// The directory an archive of `kind` is unpacked into.
pub fn extract_dir(platform: Platform, installs: &str, kind: RuntimeKind) -> (r: String)
    ensures
        r@ == extract_dir_spec(platform, installs@, kind),
{
    let d = path_join(platform, installs, "_downloads");
    let mut f = chars_of("extract-");
    push_str(&mut f, kind_dir(kind));
    path_join(platform, d.as_str(), string_of(f.as_slice()).as_str())
}

/// Where the unpacked release is and which version it is: for Java the
/// first directory unpacked (`first_subdir`), its version from its
/// `release` file (`release`, when it could be read) or else from its
/// name; for Node.js the first directory at the version asked for; for Go
/// the `go` directory of `tmp` (`go_dir_is_dir` tells whether it is one).
pub open spec fn locate_spec(
    platform: Platform,
    kind: RuntimeKind,
    requested: Seq<char>,
    tmp: Seq<char>,
    first_subdir: Option<Seq<char>>,
    release: Option<Seq<char>>,
    go_dir_is_dir: bool,
) -> Result<(Seq<char>, Seq<char>), Seq<char>> {
    match kind {
        RuntimeKind::Java => match first_subdir {
            None => Err("解压结果为空，请重试"@),
            Some(sub) => {
                let from_release = match release {
                    Some(c) => match release_spec(c) {
                        Some(p) => Some(p.0),
                        None => None,
                    },
                    None => None,
                };
                let name = match file_name_spec(platform, sub) {
                    Some(n) => n,
                    None => seq![],
                };
                match from_release {
                    Some(v) => Ok((v, sub)),
                    None => match extract_spec(name) {
                        Some(v) => Ok((v, sub)),
                        None => Err("无法识别 JDK 版本，请检查下载完整性"@),
                    },
                }
            },
        },
        RuntimeKind::Node => match first_subdir {
            None => Err("解压结果为空，请重试"@),
            Some(sub) => Ok((requested, sub)),
        },
        RuntimeKind::Go => if go_dir_is_dir {
            Ok((requested, join_spec(platform, tmp, "go"@)))
        } else {
            Err("Go 归档结构异常，请重试"@)
        },
        _ => Err(unsupported_install(kind)),
    }
}

/// Where the unpacked release is and which version it is.
pub fn locate_extracted(
    platform: Platform,
    kind: RuntimeKind,
    requested: &str,
    tmp: &str,
    first_subdir: Option<&str>,
    release: Option<&str>,
    go_dir_is_dir: bool,
) -> (r: Result<(String, String), String>)
    ensures
        match locate_spec(
            platform,
            kind,
            requested@,
            tmp@,
            match first_subdir {
                Some(s) => Some(s@),
                None => None,
            },
            match release {
                Some(c) => Some(c@),
                None => None,
            },
            go_dir_is_dir,
        ) {
            Ok(p) => r matches Ok(q) && q.0@ == p.0 && q.1@ == p.1,
            Err(e) => r matches Err(m) && m@ == e,
        },
{
    match kind {
        RuntimeKind::Java => match first_subdir {
            None => Err(owned("解压结果为空，请重试")),
            Some(sub) => {
                let from_release = match release {
                    Some(c) => match parse_release(c) {
                        Some(p) => Some(p.0),
                        None => None,
                    },
                    None => None,
                };
                match from_release {
                    Some(v) => Ok((v, owned(sub))),
                    None => {
                        let name = match file_name(platform, sub) {
                            Some(n) => n,
                            None => String::new(),
                        };
                        match extract_version(name.as_str()) {
                            Some(v) => Ok((v, owned(sub))),
                            None => Err(owned("无法识别 JDK 版本，请检查下载完整性")),
                        }
                    },
                }
            },
        },
        RuntimeKind::Node => match first_subdir {
            None => Err(owned("解压结果为空，请重试")),
            Some(sub) => Ok((owned(requested), owned(sub))),
        },
        RuntimeKind::Go => if go_dir_is_dir {
            Ok((owned(requested), path_join(platform, tmp, "go")))
        } else {
            Err(owned("Go 归档结构异常，请重试"))
        },
        _ => {
            let mut m = chars_of("暂不支持安装 ");
            push_str(&mut m, kind.display_name());
            Err(string_of(m.as_slice()))
        },
    }
}

/// Where version `version` of `kind` is installed:
/// `<kind>/<version>` in the managed installations.
pub open spec fn install_dest_spec(platform: Platform, installs: Seq<char>, kind: RuntimeKind, version: Seq<char>) -> Seq<char> {
    join_spec(platform, join_spec(platform, installs, kind_dir_spec(kind)), version)
}

/// Where the located release is moved, refused when that version is
/// already installed (`exists` tells whether its directory exists).
pub fn install_dest(platform: Platform, installs: &str, kind: RuntimeKind, version: &str, exists: bool) -> (r: Result<
    String,
    String,
>)
    ensures
        !exists ==> (r matches Ok(d) && d@ == install_dest_spec(platform, installs@, kind, version@)),
        exists ==> (r matches Err(e) && e@ == "版本 "@ + version@ + " 已安装"@),
{
    if exists {
        let mut m = chars_of("版本 ");
        push_str(&mut m, version);
        push_str(&mut m, " 已安装");
        return Err(string_of(m.as_slice()));
    }
    let d = path_join(platform, installs, kind_dir(kind));
    Ok(path_join(platform, d.as_str(), version))
}

/// Whether a version may be uninstalled: only managed installations that
/// are not the default and whose directory exists.
pub open spec fn uninstall_spec(managed: bool, is_default: bool, exists: bool) -> Result<(), Seq<char>> {
    if !managed {
        Err("仅支持卸载 NovaEnv 安装的版本（~/.novaenv/installs 下）"@)
    } else if is_default {
        Err("该版本为当前默认版本，请先切换默认后再卸载"@)
    } else if !exists {
        Err("安装目录不存在"@)
    } else {
        Ok(())
    }
}

/// Whether `version` may be uninstalled (`installs_dir` being the managed
/// installations and `exists` whether its directory exists); the caller
/// then removes its directory.
pub fn check_uninstall(platform: Platform, version: &RuntimeVersion, installs_dir: &str, exists: bool) -> (r:
    Result<(), String>)
    ensures
        match uninstall_spec(path_starts_with(platform, version.path@, installs_dir@), version.is_default, exists) {
            Ok(_) => r is Ok,
            Err(e) => r matches Err(m) && m@ == e,
        },
{
    if !is_managed(platform, version.path.as_str(), installs_dir) {
        return Err(owned("仅支持卸载 NovaEnv 安装的版本（~/.novaenv/installs 下）"));
    }
    if version.is_default {
        return Err(owned("该版本为当前默认版本，请先切换默认后再卸载"));
    }
    if !exists {
        return Err(owned("安装目录不存在"));
    }
    Ok(())
}

/// The runtimes listed in the managed directory, in order.
pub open spec fn managed_kinds() -> Seq<RuntimeKind> {
    seq![RuntimeKind::Java, RuntimeKind::Node, RuntimeKind::Go]
}

// ---------------------------------------------------------------------------
// One version per major version
// ---------------------------------------------------------------------------

/// Whether installing `new_version` of `kind` replaces the version `v`: a
/// managed version of the same runtime and major version that is older.
pub open spec fn replaced_by(kind: RuntimeKind, new_version: Seq<char>, v: VersionView) -> bool {
    &&& v.kind == kind
    &&& v.managed
    &&& major_spec(kind, v.version) == major_spec(kind, new_version)
    &&& version_order(v.version, new_version) == Order::Less
}

/// The versions among `vs` that installing `new_version` replaces, in
/// order.
pub open spec fn replaced_spec(kind: RuntimeKind, new_version: Seq<char>, vs: Seq<VersionView>) -> Seq<VersionView>
    decreases vs.len(),
{
    if vs.len() == 0 {
        seq![]
    } else {
        let r = replaced_spec(kind, new_version, vs.drop_last());
        if replaced_by(kind, new_version, vs.last()) {
            r.push(vs.last())
        } else {
            r
        }
    }
}

/// What installing a version replaces.
#[derive(Debug, Clone)]
pub struct Supersede {
    /// The older managed versions of the same major version, removed.
    pub remove: Vec<RuntimeVersion>,
    /// Whether one of them was the default, so that the new version
    /// becomes the default.
    pub promote: bool,
}

/// What installing `new_version` of `kind` replaces among the versions
/// found (`installed`): only the newest minor version of a major version
/// is kept, and when the default is replaced the new version takes its
/// place.
pub fn superseded(kind: RuntimeKind, new_version: &str, installed: &Vec<RuntimeVersion>) -> (r: Supersede)
    ensures
        version_views(r.remove@) == replaced_spec(kind, new_version@, version_views(installed@)),
        r.promote == exists|i: int|
            0 <= i < installed@.len() && replaced_by(kind, new_version@, #[trigger] installed@[i]@)
                && installed@[i].is_default,
{
    let nv = chars_of(new_version);
    let major = chars_of(major_of(kind, new_version).as_str());
    let ghost all = version_views(installed@);
    let mut remove: Vec<RuntimeVersion> = Vec::new();
    let mut promote = false;
    let mut i: usize = 0;
    while i < installed.len()
        invariant
            i <= installed@.len(),
            all == version_views(installed@),
            nv@ == new_version@,
            major@ == major_spec(kind, new_version@),
            version_views(remove@) == replaced_spec(kind, new_version@, all.take(i as int)),
            promote == exists|j: int|
                0 <= j < i && replaced_by(kind, new_version@, #[trigger] installed@[j]@) && installed@[j].is_default,
        decreases installed@.len() - i,
    {
        let v = &installed[i];
        proof {
            let t = all.take(i + 1);
            assert(t.drop_last() =~= all.take(i as int));
            assert(t.last() == v@);
        }
        let vc = chars_of(v.version.as_str());
        let vm = chars_of(major_of(kind, v.version.as_str()).as_str());
        let hit = v.kind == kind && v.managed && same(vm.as_slice(), major.as_slice()) && order_versions(
            vc.as_slice(),
            nv.as_slice(),
        ) == Order::Less;
        assert(hit == replaced_by(kind, new_version@, v@));
        if hit {
            let ghost before = version_views(remove@);
            remove.push(
                RuntimeVersion {
                    kind: v.kind,
                    version: v.version.clone(),
                    vendor: v.vendor.clone(),
                    path: v.path.clone(),
                    is_default: v.is_default,
                    managed: v.managed,
                },
            );
            assert(version_views(remove@) =~= before.push(v@));
            if v.is_default {
                promote = true;
            }
        }
        proof {
            if hit && v.is_default {
                assert(replaced_by(kind, new_version@, installed@[i as int]@) && installed@[i as int].is_default);
            }
        }
        i = i + 1;
    }
    assert(all.take(installed@.len() as int) =~= all);
    Supersede { remove, promote }
}

/// The directory of the managed installation that holds `path`: the entry
/// of the runtime's directory under `installs` that `path` lies in, when it
/// lies deeper than that directory.
pub open spec fn install_root_spec(platform: Platform, installs: Seq<char>, kind: RuntimeKind, path: Seq<char>) -> Option<
    Seq<char>,
> {
    let kd = join_spec(platform, installs, kind_dir_spec(kind));
    let ck = components(platform, kd);
    let cp = components(platform, path);
    if path_starts_with(platform, path, kd) && cp.len() > ck.len() {
        Some(join_spec(platform, kd, cp[ck.len() as int]))
    } else {
        None
    }
}

/// The directory of the managed installation that holds `path`, removed
/// when that version is replaced.
pub fn install_root(platform: Platform, installs: &str, kind: RuntimeKind, path: &str) -> (r: Option<String>)
    ensures
        match install_root_spec(platform, installs@, kind, path@) {
            Some(d) => r matches Some(s) && s@ == d,
            None => r is None,
        },
{
    let kd = path_join(platform, installs, kind_dir(kind));
    let ck = components_of(platform, kd.as_str());
    let cp = components_of(platform, path);
    if starts_with_path(platform, path, kd.as_str()) && cp.len() > ck.len() {
        let name = string_of(cp[ck.len()].as_slice());
        assert(seqs_of(cp@)[ck@.len() as int] == cp@[ck@.len() as int]@);
        Some(path_join(platform, kd.as_str(), name.as_str()))
    } else {
        None
    }
}

/// After an install, no managed version of the same runtime and major
/// version that is older than the new one remains among those kept.
pub proof fn law_one_version_per_major(kind: RuntimeKind, new_version: Seq<char>, vs: Seq<VersionView>)
    ensures
        forall|i: int|
            0 <= i < vs.len() && replaced_by(kind, new_version, #[trigger] vs[i]) ==> replaced_spec(
                kind,
                new_version,
                vs,
            ).contains(vs[i]),
        forall|k: int|
            0 <= k < replaced_spec(kind, new_version, vs).len() ==> replaced_by(
                kind,
                new_version,
                #[trigger] replaced_spec(kind, new_version, vs)[k],
            ) && vs.contains(replaced_spec(kind, new_version, vs)[k]),
    decreases vs.len(),
{
    if vs.len() > 0 {
        let d = vs.drop_last();
        law_one_version_per_major(kind, new_version, d);
        let r = replaced_spec(kind, new_version, d);
        assert forall|i: int|
            0 <= i < vs.len() && replaced_by(kind, new_version, #[trigger] vs[i]) implies replaced_spec(
                kind,
                new_version,
                vs,
            ).contains(vs[i]) by {
            if i < vs.len() - 1 {
                assert(vs[i] == d[i]);
                assert(r.contains(d[i]));
                let k = choose|k: int| 0 <= k < r.len() && r[k] == d[i];
                if replaced_by(kind, new_version, vs.last()) {
                    assert(r.push(vs.last())[k] == d[i]);
                }
            } else {
                assert(r.push(vs.last())[r.len() as int] == vs.last());
            }
        }
        assert forall|k: int| 0 <= k < replaced_spec(kind, new_version, vs).len() implies replaced_by(
            kind,
            new_version,
            #[trigger] replaced_spec(kind, new_version, vs)[k],
        ) && vs.contains(replaced_spec(kind, new_version, vs)[k]) by {
            let rs = replaced_spec(kind, new_version, vs);
            if k < r.len() {
                assert(rs[k] == r[k]);
                assert(d.contains(r[k]));
                let j = choose|j: int| 0 <= j < d.len() && d[j] == r[k];
                assert(vs[j] == d[j]);
            } else {
                assert(rs[k] == vs.last());
                assert(vs[vs.len() - 1] == vs.last());
            }
        }
    }
}

/// A release that the library installs lies in the managed installations,
/// so the library lets it be uninstalled: the destination of `version` of
/// `kind` under `installs` starts with `installs`, component by component,
/// and once it exists, and is not the default, its removal is allowed.
pub proof fn law_installed_is_managed(platform: Platform, installs: Seq<char>, kind: RuntimeKind, version: Seq<char>)
    requires
        !replaces(platform, version),
    ensures
        path_starts_with(platform, install_dest_spec(platform, installs, kind, version), installs),
        uninstall_spec(
            path_starts_with(platform, install_dest_spec(platform, installs, kind, version), installs),
            false,
            true,
        ) is Ok,
{
    reveal_strlit("java");
    reveal_strlit("node");
    reveal_strlit("go");
    reveal_strlit("maven");
    reveal_strlit("python");
    reveal_strlit("rust");
    let k = kind_dir_spec(kind);
    assert(!replaces(platform, k)) by {
        match kind {
            RuntimeKind::Java => {},
            RuntimeKind::Node => {},
            RuntimeKind::Go => {},
            RuntimeKind::Maven => {},
            RuntimeKind::Python => {},
            RuntimeKind::Rust => {},
        }
    }
    let d = join_spec(platform, installs, k);
    lemma_join_under(platform, installs, k);
    lemma_join_under(platform, d, version);
    lemma_under_trans(platform, join_spec(platform, d, version), d, installs);
}

/// The managed directory at `path` holding `found[i]`, the version
/// directories of the `i`-th runtime of `managed_kinds`, and `size_bytes`
/// in all: each list sorted as text, and the number of versions.
pub fn manage_info(path: String, found: &Vec<Vec<String>>, size_bytes: u64) -> (r: ManageInfo)
    requires
        found@.len() == 3,
        found@[0].len() + found@[1].len() + found@[2].len() <= usize::MAX,
    ensures
        r.path == path,
        r.size_bytes == size_bytes,
        r.version_count == found@[0].len() + found@[1].len() + found@[2].len(),
        r.runtimes@.len() == 3,
        forall|i: int| 0 <= i < 3 ==> (#[trigger] r.runtimes@[i]).kind == managed_kinds()[i] && strs_of(
            r.runtimes@[i].versions@,
        ) == stable_sort(strs_of(found@[i]@), text_order()),
{
    let mut runtimes: Vec<ManagedRuntimeInfo> = Vec::new();
    let mut count: usize = 0;
    let kinds = [RuntimeKind::Java, RuntimeKind::Node, RuntimeKind::Go];
    let mut i: usize = 0;
    while i < 3
        invariant
            i <= 3,
            found@.len() == 3,
            found@[0].len() + found@[1].len() + found@[2].len() <= usize::MAX,
            kinds@ == managed_kinds(),
            runtimes@.len() == i,
            count == (if i >= 1 {
                found@[0].len()
            } else {
                0
            }) + (if i >= 2 {
                found@[1].len()
            } else {
                0
            }) + (if i >= 3 {
                found@[2].len()
            } else {
                0
            }),
            forall|j: int| 0 <= j < i ==> (#[trigger] runtimes@[j]).kind == managed_kinds()[j] && strs_of(
                runtimes@[j].versions@,
            ) == stable_sort(strs_of(found@[j]@), text_order()),
        decreases 3 - i,
    {
        let sorted = sort_versions(&found[i], VersionSort::Text);
        count = count + found[i].len();
        runtimes.push(ManagedRuntimeInfo { kind: kinds[i], versions: sorted });
        i = i + 1;
    }
    ManageInfo { path, version_count: count, size_bytes, runtimes }
}

// ---------------------------------------------------------------------------
// Release lists
// ---------------------------------------------------------------------------

/// How many of the newest Node.js releases are offered.
pub const NODE_RELEASES: usize = 80;

/// `v` without one leading `c`.
pub open spec fn without_char(v: Seq<char>, c: char) -> Seq<char> {
    if v.len() > 0 && v[0] == c {
        v.drop_first()
    } else {
        v
    }
}

/// The Node.js releases offered from the entries of `index.json` (its
/// version, and whether its `lts` field is set): the first 80 entries
/// that have a version, without the `v`.
pub open spec fn node_spec(entries: Seq<(Option<Seq<char>>, bool)>) -> Seq<AvailableView>
    decreases entries.len(),
{
    if entries.len() == 0 {
        seq![]
    } else {
        let rest = node_spec(entries.drop_last());
        match entries.last().0 {
            Some(v) => rest.push(AvailableView { version: without_char(v, 'v'), is_lts: entries.last().1 }),
            None => rest,
        }
    }
}

/// `v` without one leading `c`.
fn without_char_of(v: &String, c: char) -> (r: String)
    ensures
        r@ == without_char(v@, c),
{
    let cv = chars_of(v.as_str());
    if cv.len() > 0 && cv[0] == c {
        let rest = crate::text::slice(cv.as_slice(), 1, cv.len());
        assert(rest@ =~= cv@.drop_first());
        string_of(rest.as_slice())
    } else {
        v.clone()
    }
}

/// The Node.js releases offered, or an error when there are none.
pub fn node_versions(entries: &Vec<(Option<String>, bool)>) -> (r: Result<Vec<AvailableVersion>, String>)
    ensures
        ({
            let es = entries@.take(if entries@.len() < 80 {
                entries@.len() as int
            } else {
                80
            }).map_values(|e: (Option<String>, bool)| (
                match e.0 {
                    Some(v) => Some(v@),
                    None => None,
                },
                e.1,
            ));
            if node_spec(es).len() == 0 {
                r matches Err(m) && m@ == "nodejs.org 未返回可用版本"@
            } else {
                r matches Ok(v) && available_views(v@) == node_spec(es)
            }
        }),
{
    let n: usize = if entries.len() < NODE_RELEASES {
        entries.len()
    } else {
        NODE_RELEASES
    };
    let ghost es = entries@.take(n as int).map_values(|e: (Option<String>, bool)| (
        match e.0 {
            Some(v) => Some(v@),
            None => None,
        },
        e.1,
    ));
    let mut out: Vec<AvailableVersion> = Vec::new();
    let mut i: usize = 0;
    assert(es.take(0) =~= Seq::<(Option<Seq<char>>, bool)>::empty());
    assert(available_views(out@) =~= Seq::<AvailableView>::empty());
    while i < n
        invariant
            i <= n,
            n <= entries@.len(),
            es == entries@.take(n as int).map_values(|e: (Option<String>, bool)| (
                match e.0 {
                    Some(v) => Some(v@),
                    None => None,
                },
                e.1,
            )),
            available_views(out@) == node_spec(es.take(i as int)),
        decreases n - i,
    {
        proof {
            let t = es.take(i + 1);
            assert(t.drop_last() =~= es.take(i as int));
            assert(t.last() == es[i as int]);
        }
        match &entries[i].0 {
            Some(v) => {
                let ghost before = available_views(out@);
                let av = AvailableVersion { version: without_char_of(v, 'v'), is_lts: entries[i].1 };
                out.push(av);
                assert(available_views(out@) =~= before.push(av@));
            },
            None => {},
        }
        i = i + 1;
    }
    assert(es.take(n as int) =~= es);
    if out.len() == 0 {
        return Err(owned("nodejs.org 未返回可用版本"));
    }
    Ok(out)
}

/// The Go releases offered from the entries of the download list (whether
/// it is stable, and its version): the stable ones that have a version,
/// without `go`, none long-term supported.
pub open spec fn go_spec(entries: Seq<(bool, Option<Seq<char>>)>) -> Seq<AvailableView>
    decreases entries.len(),
{
    if entries.len() == 0 {
        seq![]
    } else {
        let rest = go_spec(entries.drop_last());
        let e = entries.last();
        match e.1 {
            Some(v) => if e.0 {
                rest.push(
                    AvailableView {
                        version: match strip_prefix(v, "go"@) {
                            Some(x) => x,
                            None => v,
                        },
                        is_lts: false,
                    },
                )
            } else {
                rest
            },
            None => rest,
        }
    }
}

/// The Go releases offered, or an error when there are none.
pub fn go_versions(entries: &Vec<(bool, Option<String>)>) -> (r: Result<Vec<AvailableVersion>, String>)
    ensures
        ({
            let es = entries@.map_values(|e: (bool, Option<String>)| (
                e.0,
                match e.1 {
                    Some(v) => Some(v@),
                    None => None,
                },
            ));
            if go_spec(es).len() == 0 {
                r matches Err(m) && m@ == "go.dev 未返回可用版本"@
            } else {
                r matches Ok(v) && available_views(v@) == go_spec(es)
            }
        }),
{
    let ghost es = entries@.map_values(|e: (bool, Option<String>)| (
        e.0,
        match e.1 {
            Some(v) => Some(v@),
            None => None,
        },
    ));
    let go = chars_of("go");
    let mut out: Vec<AvailableVersion> = Vec::new();
    let mut i: usize = 0;
    assert(es.take(0) =~= Seq::<(bool, Option<Seq<char>>)>::empty());
    assert(available_views(out@) =~= Seq::<AvailableView>::empty());
    while i < entries.len()
        invariant
            i <= entries@.len(),
            go@ == "go"@,
            es == entries@.map_values(|e: (bool, Option<String>)| (
                e.0,
                match e.1 {
                    Some(v) => Some(v@),
                    None => None,
                },
            )),
            available_views(out@) == go_spec(es.take(i as int)),
        decreases entries@.len() - i,
    {
        proof {
            let t = es.take(i + 1);
            assert(t.drop_last() =~= es.take(i as int));
            assert(t.last() == es[i as int]);
        }
        if entries[i].0 {
            match &entries[i].1 {
                Some(v) => {
                    let cv = chars_of(v.as_str());
                    let version = match without_prefix(cv.as_slice(), go.as_slice()) {
                        Some(x) => string_of(x.as_slice()),
                        None => v.clone(),
                    };
                    let ghost before = available_views(out@);
                    let av = AvailableVersion { version, is_lts: false };
                    out.push(av);
                    assert(available_views(out@) =~= before.push(av@));
                },
                None => {},
            }
        }
        i = i + 1;
    }
    assert(es.take(entries@.len() as int) =~= es);
    if out.len() == 0 {
        return Err(owned("go.dev 未返回可用版本"));
    }
    Ok(out)
}

/// Whether the release list cached on disk is still used: written at most six hours (21600 s) before `now` (both in seconds since
/// the epoch; a write time after `now` counts as fresh).
pub open spec fn disk_fresh_spec(now: u64, fetched_at: u64) -> bool {
    (if now > fetched_at {
        now - fetched_at
    } else {
        0
    }) <= 21600
}

/// Whether the disk cache written at `fetched_at` is still used at `now`.
pub fn disk_cache_fresh(now: u64, fetched_at: u64) -> (r: bool)
    ensures
        r == disk_fresh_spec(now, fetched_at),
{
    now.saturating_sub(fetched_at) <= 21600
}

/// Where the release list is taken from.
#[derive(Debug, Clone, Copy, PartialEq, Eq, Structural)]
pub enum VersionSource {
    /// The copy kept in memory.
    Memory,
    /// The copy kept on disk.
    Disk,
    /// The release source on the network.
    Fetch,
}

/// Where the release list is taken from: unless a refresh is asked for,
/// the copy in memory when it is younger than five minutes
/// (`memory_age_ms`, when there is one), else the copy on disk when it is
/// fresh (`disk_fresh`); otherwise the network.
pub open spec fn source_spec(refresh: bool, memory_age_ms: Option<u64>, disk_fresh: bool) -> VersionSource {
    if !refresh && (memory_age_ms matches Some(a) && a < 300000) {
        VersionSource::Memory
    } else if !refresh && disk_fresh {
        VersionSource::Disk
    } else {
        VersionSource::Fetch
    }
}

/// Where the release list is taken from.
pub fn version_source(refresh: bool, memory_age_ms: Option<u64>, disk_fresh: bool) -> (r: VersionSource)
    ensures
        r == source_spec(refresh, memory_age_ms, disk_fresh),
{
    if !refresh {
        if let Some(a) = memory_age_ms {
            if a < 300000 {
                return VersionSource::Memory;
            }
        }
        if disk_fresh {
            return VersionSource::Disk;
        }
    }
    VersionSource::Fetch
}

/// The release list of `kind` grouped by major version, from the releases
/// the source offered (or its error).
pub fn available_versions(kind: RuntimeKind, fetched: Result<Vec<AvailableVersion>, String>) -> (r: Result<
    Vec<AvailableVersionGroup>,
    String,
>)
    ensures
        match fetched {
            Ok(v) => r matches Ok(g) && group_views(g@) == grouped(kind, available_views(v@)),
            Err(e) => r matches Err(m) && m == e,
        },
{
    match fetched {
        Ok(v) => Ok(group_versions(kind, v)),
        Err(e) => Err(e),
    }
}

/// Integers in increasing order.
pub open spec fn int_less() -> spec_fn(i64, i64) -> bool {
    |a: i64, b: i64| a < b
}

/// `v` in increasing order.
pub fn sort_ints(v: &Vec<i64>) -> (r: Vec<i64>)
    ensures
        r@ == stable_sort(v@, int_less()),
{
    let ghost rel = int_less();
    let mut r: Vec<i64> = Vec::new();
    let mut i: usize = 0;
    assert(v@.take(0) =~= Seq::<i64>::empty());
    while i < v.len()
        invariant
            i <= v@.len(),
            rel == int_less(),
            r@ == stable_sort(v@.take(i as int), rel),
        decreases v@.len() - i,
    {
        let e = v[i];
        let mut p: usize = r.len();
        while p > 0 && e < r[p - 1]
            invariant
                p <= r@.len(),
                rel == int_less(),
                forall|j: int| p <= j < r@.len() ==> (rel)(e, #[trigger] r@[j]),
            decreases p,
        {
            p = p - 1;
        }
        proof {
            lemma_insert_at(r@, e, rel, p as int);
            let t = v@.take(i + 1);
            assert(t.drop_last() =~= v@.take(i as int));
            assert(t.last() == e);
        }
        let ghost before = r@;
        r.insert(p, e);
        assert(r@ =~= before.take(p as int).push(e) + before.skip(p as int));
        i = i + 1;
    }
    assert(v@.take(v@.len() as int) =~= v@);
    r
}

/// `ms` with the candidates `cs` added in turn (each once) until it holds
/// `target` majors.
pub open spec fn add_majors(ms: Seq<i64>, cs: Seq<i64>, target: nat) -> Seq<i64>
    decreases cs.len(),
{
    if cs.len() == 0 {
        ms
    } else {
        let next = if ms.contains(cs[0]) {
            ms
        } else {
            ms.push(cs[0])
        };
        if next.len() >= target {
            next
        } else {
            add_majors(next, cs.drop_first(), target)
        }
    }
}

/// The Java feature releases whose versions are listed: every long-term
/// one and the two newest other releases, in increasing order.
pub open spec fn java_majors_spec(lts: Seq<i64>, all: Seq<i64>) -> Seq<i64> {
    let l = stable_sort(lts, int_less());
    let a = stable_sort(all, int_less());
    stable_sort(add_majors(l, a.reverse(), l.len() + 2), int_less())
}

/// Whether `v` holds `x`.
fn holds_int(v: &Vec<i64>, x: i64) -> (r: bool)
    ensures
        r == v@.contains(x),
{
    let mut i: usize = 0;
    while i < v.len()
        invariant
            i <= v@.len(),
            forall|j: int| 0 <= j < i ==> v@[j] != x,
        decreases v@.len() - i,
    {
        if v[i] == x {
            return true;
        }
        i = i + 1;
    }
    false
}

/// The Java feature releases whose versions are listed, from the lists of
/// long-term releases and of all releases that Adoptium gives.
pub fn java_majors(lts: &Vec<i64>, all: &Vec<i64>) -> (r: Vec<i64>)
    ensures
        r@ == java_majors_spec(lts@, all@),
{
    let l = sort_ints(lts);
    let a = sort_ints(all);
    let mut majors = l.clone();
    assert(majors@ == l@);
    let ghost cs = a@.reverse();
    let mut k: usize = a.len();
    let mut done = false;
    assert(a@.reverse().skip(0) =~= cs);
    while k > 0 && !done
        invariant
            k <= a@.len(),
            cs == a@.reverse(),
            !done ==> add_majors(l@, cs, (l@.len() + 2) as nat) == add_majors(majors@, cs.skip(a@.len() - k), (l@.len() + 2) as nat),
            done ==> add_majors(l@, cs, (l@.len() + 2) as nat) == majors@,
        decreases k + (if done {
            0int
        } else {
            1int
        }),
    {
        let m = a[k - 1];
        let ghost rest = cs.skip(a@.len() - k);
        proof {
            assert(rest[0] == a@[k - 1]);
            assert(rest.drop_first() =~= cs.skip(a@.len() - k + 1));
        }
        if !holds_int(&majors, m) {
            majors.push(m);
        }
        if majors.len() > l.len() && majors.len() - l.len() >= 2 {
            done = true;
        } else {
            k = k - 1;
        }
    }
    proof {
        if !done {
            assert(cs.skip(a@.len() as int).len() == 0);
        }
    }
    sort_ints(&majors)
}

/// The version of a Temurin semver (`21.0.12+8.0.LTS` gives `21.0.12`).
pub open spec fn semver_version(semver: Seq<char>) -> Seq<char> {
    split(semver, '+')[0]
}

/// The Temurin releases offered, from the semvers listed for each feature
/// release (in the order given), long-term when their feature release is.
pub open spec fn java_spec(lts: Seq<i64>, releases: Seq<(i64, Seq<Seq<char>>)>) -> Seq<AvailableView> {
    releases.map_values(
        |r: (i64, Seq<Seq<char>>)| r.1.map_values(|s: Seq<char>| AvailableView { version: semver_version(s), is_lts: lts.contains(r.0) }),
    ).flatten()
}

/// The Temurin releases offered, or an error when there are none.
pub fn java_versions(lts: &Vec<i64>, releases: &Vec<(i64, Vec<String>)>) -> (r: Result<Vec<AvailableVersion>, String>)
    ensures
        ({
            let rs = releases@.map_values(|r: (i64, Vec<String>)| (r.0, strs_of(r.1@)));
            if java_spec(lts@, rs).len() == 0 {
                r matches Err(m) && m@ == "Adoptium 未返回可用版本"@
            } else {
                r matches Ok(v) && available_views(v@) == java_spec(lts@, rs)
            }
        }),
{
    let ghost rs = releases@.map_values(|r: (i64, Vec<String>)| (r.0, strs_of(r.1@)));
    let ghost parts = rs.map_values(
        |r: (i64, Seq<Seq<char>>)| r.1.map_values(|s: Seq<char>| AvailableView { version: semver_version(s), is_lts: lts@.contains(r.0) }),
    );
    let mut out: Vec<AvailableVersion> = Vec::new();
    let mut i: usize = 0;
    assert(parts.take(0).flatten() =~= Seq::<AvailableView>::empty());
    assert(available_views(out@) =~= Seq::<AvailableView>::empty());
    while i < releases.len()
        invariant
            i <= releases@.len(),
            rs == releases@.map_values(|r: (i64, Vec<String>)| (r.0, strs_of(r.1@))),
            parts == rs.map_values(
                |r: (i64, Seq<Seq<char>>)| r.1.map_values(|s: Seq<char>| AvailableView { version: semver_version(s), is_lts: lts@.contains(r.0) }),
            ),
            available_views(out@) == parts.take(i as int).flatten(),
        decreases releases@.len() - i,
    {
        let major = releases[i].0;
        let is_lts = holds_int(lts, major);
        let semvers = &releases[i].1;
        let ghost before = available_views(out@);
        let ghost part = parts[i as int];
        assert(part == strs_of(semvers@).map_values(|s: Seq<char>| AvailableView { version: semver_version(s), is_lts: lts@.contains(major) }));
        let mut j: usize = 0;
        while j < semvers.len()
            invariant
                j <= semvers@.len(),
                is_lts == lts@.contains(major),
                part == strs_of(semvers@).map_values(|s: Seq<char>| AvailableView { version: semver_version(s), is_lts: lts@.contains(major) }),
                available_views(out@) == before + part.take(j as int),
            decreases semvers@.len() - j,
        {
            let c = chars_of(semvers[j].as_str());
            let ps = split_at_char(c.as_slice(), '+');
            proof {
                lemma_split_nonempty(c@, '+');
            }
            assert(seqs_of(ps@)[0] == ps@[0]@);
            let av = AvailableVersion { version: string_of(ps[0].as_slice()), is_lts };
            let ghost ob = available_views(out@);
            out.push(av);
            proof {
                assert(part[j as int] == av@);
                assert(part.take(j + 1) =~= part.take(j as int).push(av@));
                assert(available_views(out@) =~= ob.push(av@));
            }
            j = j + 1;
        }
        proof {
            assert(part.take(semvers@.len() as int) =~= part);
            let t = parts.take(i + 1);
            assert(t.drop_last() =~= parts.take(i as int));
            assert(t.last() == part);
            t.lemma_flatten_and_flatten_alt_are_equivalent();
            parts.take(i as int).lemma_flatten_and_flatten_alt_are_equivalent();
        }
        i = i + 1;
    }
    assert(parts.take(releases@.len() as int) =~= parts);
    if out.len() == 0 {
        return Err(owned("Adoptium 未返回可用版本"));
    }
    Ok(out)
}

/// A release list asked for again within five minutes of the last one,
/// without a refresh, comes from memory, whatever the disk holds: no
/// request goes out; one written to disk less than six hours ago is used
/// when memory has none; and a refresh always asks the network.
pub proof fn law_cached_lists(age_ms: u64, now: u64, fetched_at: u64, memory: Option<u64>, disk_fresh: bool)
    ensures
        age_ms < 300000 ==> source_spec(false, Some(age_ms), disk_fresh) == VersionSource::Memory,
        fetched_at <= now && now - fetched_at <= 21600 ==> disk_fresh_spec(now, fetched_at)
            && source_spec(false, None, disk_fresh_spec(now, fetched_at)) == VersionSource::Disk,
        source_spec(true, memory, disk_fresh) == VersionSource::Fetch,
{
}

// ---------------------------------------------------------------------------
// Laws of grouping
// ---------------------------------------------------------------------------

/// `x` is the version of an entry of `vs`.
pub open spec fn listed_version(vs: Seq<AvailableView>, x: Seq<char>) -> bool {
    exists|k: int| 0 <= k < vs.len() && (#[trigger] vs[k]).version == x
}

/// An entry of `vs` whose major is `m` is long-term supported.
pub open spec fn lts_listed(kind: RuntimeKind, vs: Seq<AvailableView>, m: Seq<char>) -> bool {
    exists|k: int| 0 <= k < vs.len() && major_spec(kind, (#[trigger] vs[k]).version) == m && vs[k].is_lts
}

/// A group of the entries `vs`: it holds versions, each once, all of its
/// major and all listed; it is long-term supported exactly when a listed
/// version of its major is.
pub open spec fn group_ok(kind: RuntimeKind, vs: Seq<AvailableView>, g: GroupView) -> bool {
    &&& g.versions.len() > 0
    &&& g.versions.no_duplicates()
    &&& forall|a: int| 0 <= a < g.versions.len() ==> major_spec(kind, #[trigger] g.versions[a]) == g.major
        && listed_version(vs, g.versions[a])
    &&& g.is_lts == lts_listed(kind, vs, g.major)
}

/// Different groups have different majors.
pub open spec fn majors_distinct(gs: Seq<GroupView>) -> bool {
    pairwise(gs, |a: GroupView, b: GroupView| a.major != b.major)
}

/// Some group of `gs` has major `m` and holds `x`.
pub open spec fn has_version(gs: Seq<GroupView>, m: Seq<char>, x: Seq<char>) -> bool {
    exists|i: int| 0 <= i < gs.len() && (#[trigger] gs[i]).major == m && gs[i].versions.contains(x)
}

/// Every entry of `vs` is in the group of its major.
pub open spec fn covers(kind: RuntimeKind, vs: Seq<AvailableView>, gs: Seq<GroupView>) -> bool {
    forall|k: int| 0 <= k < vs.len() ==> has_version(gs, major_spec(kind, (#[trigger] vs[k]).version), vs[k].version)
}

/// What collecting the groups of `vs` gives.
proof fn lemma_collect_groups(kind: RuntimeKind, vs: Seq<AvailableView>)
    ensures
        majors_distinct(collect_groups(kind, vs)),
        forall|i: int| 0 <= i < collect_groups(kind, vs).len() ==> group_ok(kind, vs, #[trigger] collect_groups(kind, vs)[i]),
        covers(kind, vs, collect_groups(kind, vs)),
    decreases vs.len(),
{
    if vs.len() > 0 {
        let d = vs.drop_last();
        let v = vs.last();
        let c = collect_groups(kind, d);
        lemma_collect_groups(kind, d);
        let m = major_spec(kind, v.version);
        lemma_find_group(c, m);
        let r = collect_groups(kind, vs);
        assert(r == add_version(c, kind, v));
        assert(vs[vs.len() - 1] == v);
        // What was listed stays listed; the new entry is listed.
        assert forall|x: Seq<char>| listed_version(d, x) implies listed_version(vs, x) by {
            let k = choose|k: int| 0 <= k < d.len() && (#[trigger] d[k]).version == x;
            assert(vs[k] == d[k]);
        }
        assert(listed_version(vs, v.version));
        assert forall|mm: Seq<char>| #[trigger] lts_listed(kind, vs, mm) == (lts_listed(kind, d, mm) || (m == mm
            && v.is_lts)) by {
            if lts_listed(kind, d, mm) {
                let k = choose|k: int| 0 <= k < d.len() && major_spec(kind, (#[trigger] d[k]).version) == mm && d[k].is_lts;
                assert(vs[k] == d[k]);
            }
            if lts_listed(kind, vs, mm) {
                let k = choose|k: int| 0 <= k < vs.len() && major_spec(kind, (#[trigger] vs[k]).version) == mm
                    && vs[k].is_lts;
                if k < d.len() {
                    assert(d[k] == vs[k]);
                }
            }
        }
        match find_group(c, m) {
            Some(i) => {
                let g = c[i];
                let ng = r[i];
                assert(ng.major == g.major);
                assert(ng.is_lts == (g.is_lts || v.is_lts));
                assert(majors_distinct(r)) by {
                    assert forall|a: int, b: int| 0 <= a < r.len() && 0 <= b < r.len() && a != b implies (#[trigger] r[a]).major
                        != (#[trigger] r[b]).major by {
                        assert(c[a].major != c[b].major);
                    }
                }
                assert forall|j: int| 0 <= j < r.len() implies group_ok(kind, vs, #[trigger] r[j]) by {
                    assert(group_ok(kind, d, c[j]));
                    if j == i {
                        let ws = g.versions;
                        let nws = ng.versions;
                        if !ws.contains(v.version) {
                            assert(nws == ws.push(v.version));
                            assert forall|a: int, b: int| 0 <= a < nws.len() && 0 <= b < nws.len() && a != b implies nws[a] != nws[b] by {
                                if a < ws.len() && b < ws.len() {
                                    assert(ws[a] != ws[b]);
                                } else if a == ws.len() {
                                    assert(nws[a] == v.version);
                                    assert(nws[b] == ws[b]);
                                } else {
                                    assert(nws[b] == v.version);
                                    assert(nws[a] == ws[a]);
                                }
                            }
                        }
                        assert forall|a: int| 0 <= a < nws.len() implies major_spec(kind, #[trigger] nws[a]) == ng.major
                            && listed_version(vs, nws[a]) by {
                            if a < ws.len() {
                                assert(nws[a] == ws[a]);
                                assert(listed_version(d, ws[a]));
                            } else {
                                assert(nws[a] == v.version);
                            }
                        }
                        assert(lts_listed(kind, vs, ng.major) == (lts_listed(kind, d, g.major) || v.is_lts));
                    } else {
                        assert(r[j] == c[j]);
                        assert(c[j].major != m);
                        assert forall|a: int| 0 <= a < c[j].versions.len() implies major_spec(kind, #[trigger] c[j].versions[a])
                            == c[j].major && listed_version(vs, c[j].versions[a]) by {
                            assert(listed_version(d, c[j].versions[a]));
                        }
                        assert(lts_listed(kind, vs, c[j].major) == lts_listed(kind, d, c[j].major));
                    }
                }
                assert forall|k: int| 0 <= k < vs.len() implies has_version(r, major_spec(kind, (#[trigger] vs[k]).version), vs[k].version) by {
                    if k < d.len() {
                        assert(vs[k] == d[k]);
                        assert(has_version(c, major_spec(kind, d[k].version), d[k].version));
                        let w = choose|w: int| 0 <= w < c.len() && (#[trigger] c[w]).major == major_spec(kind, d[k].version)
                            && c[w].versions.contains(d[k].version);
                        if w == i {
                            let y = choose|y: int| 0 <= y < g.versions.len() && g.versions[y] == d[k].version;
                            assert(r[i].versions[y] == d[k].version);
                            assert(r[i].versions.contains(d[k].version));
                        } else {
                            assert(r[w] == c[w]);
                        }
                        assert(r[w].major == major_spec(kind, vs[k].version));
                    } else {
                        assert(vs[k] == v);
                        if g.versions.contains(v.version) {
                            assert(r[i].versions == g.versions);
                        } else {
                            assert(r[i].versions[g.versions.len() as int] == v.version);
                        }
                        assert(r[i].versions.contains(v.version));
                        assert(r[i].major == m);
                    }
                }
            },
            None => {
                let ng = GroupView { major: m, is_lts: v.is_lts, versions: seq![v.version], latest: seq![] };
                assert(r == c.push(ng));
                assert(majors_distinct(r)) by {
                    assert forall|a: int, b: int| 0 <= a < r.len() && 0 <= b < r.len() && a != b implies (#[trigger] r[a]).major
                        != (#[trigger] r[b]).major by {
                        if a < c.len() && b < c.len() {
                            assert(c[a].major != c[b].major);
                        } else if a == c.len() {
                            assert(r[b] == c[b]);
                        } else {
                            assert(r[a] == c[a]);
                        }
                    }
                }
                // No listed entry had major `m`.
                assert(!lts_listed(kind, d, m)) by {
                    if lts_listed(kind, d, m) {
                        let k = choose|k: int| 0 <= k < d.len() && major_spec(kind, (#[trigger] d[k]).version) == m && d[k].is_lts;
                        assert(has_version(c, major_spec(kind, d[k].version), d[k].version));
                        let w = choose|w: int| 0 <= w < c.len() && (#[trigger] c[w]).major == major_spec(kind, d[k].version)
                            && c[w].versions.contains(d[k].version);
                        assert(c[w].major != m);
                    }
                }
                assert forall|j: int| 0 <= j < r.len() implies group_ok(kind, vs, #[trigger] r[j]) by {
                    if j < c.len() {
                        assert(r[j] == c[j]);
                        assert(group_ok(kind, d, c[j]));
                        assert(c[j].major != m);
                        assert forall|a: int| 0 <= a < c[j].versions.len() implies major_spec(kind, #[trigger] c[j].versions[a])
                            == c[j].major && listed_version(vs, c[j].versions[a]) by {
                            assert(listed_version(d, c[j].versions[a]));
                        }
                        assert(lts_listed(kind, vs, c[j].major) == lts_listed(kind, d, c[j].major));
                    } else {
                        assert(r[j] == ng);
                        assert(ng.versions[0] == v.version);
                        assert(lts_listed(kind, vs, m) == v.is_lts);
                    }
                }
                assert forall|k: int| 0 <= k < vs.len() implies has_version(r, major_spec(kind, (#[trigger] vs[k]).version), vs[k].version) by {
                    if k < d.len() {
                        assert(vs[k] == d[k]);
                        assert(has_version(c, major_spec(kind, d[k].version), d[k].version));
                        let w = choose|w: int| 0 <= w < c.len() && (#[trigger] c[w]).major == major_spec(kind, d[k].version)
                            && c[w].versions.contains(d[k].version);
                        assert(r[w] == c[w]);
                    } else {
                        assert(vs[k] == v);
                        assert(r[c.len() as int] == ng);
                        assert(ng.versions[0] == v.version);
                        assert(ng.versions.contains(v.version));
                    }
                }
            },
        }
    }
}

/// "Strictly newer" is a strict weak order on versions.
proof fn lemma_newer_strict_weak()
    ensures
        strict_weak(newer_first()),
        strict_weak(group_newer_first()),
{
    assert forall|a: Seq<char>, b: Seq<char>| #[trigger] (newer_first())(a, b) implies !(newer_first())(b, a) by {
        law_version_order(a, b, a);
    }
    assert forall|a: Seq<char>, b: Seq<char>, c: Seq<char>|
        !#[trigger] (newer_first())(b, a) && !#[trigger] (newer_first())(c, b) implies !(newer_first())(c, a) by {
        law_version_order(a, b, c);
        law_version_order(c, b, a);
        law_version_order(b, a, c);
        law_version_order(a, c, b);
    }
    assert forall|a: GroupView, b: GroupView| #[trigger] (group_newer_first())(a, b) implies !(group_newer_first())(b, a) by {
        law_version_order(a.major, b.major, a.major);
    }
    assert forall|a: GroupView, b: GroupView, c: GroupView|
        !#[trigger] (group_newer_first())(b, a) && !#[trigger] (group_newer_first())(c, b) implies !(group_newer_first())(c, a) by {
        law_version_order(a.major, b.major, c.major);
        law_version_order(c.major, b.major, a.major);
        law_version_order(b.major, a.major, c.major);
        law_version_order(a.major, c.major, b.major);
    }
}

/// A group as shown: a group of the entries whose versions are newest
/// first, its latest version the first of them.
pub open spec fn shown_group_ok(kind: RuntimeKind, vs: Seq<AvailableView>, g: GroupView) -> bool {
    &&& group_ok(kind, vs, g)
    &&& sorted_for(g.versions, newer_first())
    &&& g.latest == g.versions[0]
}

/// Finishing a group keeps it a group of the entries and sorts it.
proof fn lemma_finish_group(kind: RuntimeKind, vs: Seq<AvailableView>, g: GroupView)
    requires
        group_ok(kind, vs, g),
    ensures
        shown_group_ok(kind, vs, finish_group(g)),
        finish_group(g).major == g.major,
        forall|x: Seq<char>| #[trigger] finish_group(g).versions.contains(x) <==> g.versions.contains(x),
{
    let f = finish_group(g);
    lemma_newer_strict_weak();
    lemma_stable_sort_sorted(g.versions, newer_first());
    lemma_stable_sort_contains(g.versions, newer_first());
    lemma_stable_sort_pairwise(g.versions, newer_first(), |a: Seq<char>, b: Seq<char>| a != b);
    assert(pairwise(g.versions, |a: Seq<char>, b: Seq<char>| a != b));
    assert forall|a: int| 0 <= a < f.versions.len() implies major_spec(kind, #[trigger] f.versions[a]) == f.major
        && listed_version(vs, f.versions[a]) by {
        assert(f.versions.contains(f.versions[a]));
        assert(g.versions.contains(f.versions[a]));
        let b = choose|b: int| 0 <= b < g.versions.len() && g.versions[b] == f.versions[a];
        assert(major_spec(kind, g.versions[b]) == g.major);
    }
}

/// The groups of a release list, as shown: newest major first, different
/// majors; in each group its versions, each once, newest first, all of its
/// major and all from the list, the latest the first of them; a group is
/// long-term supported exactly when a listed version of its major is; and
/// every listed version is in the group of its major.
pub proof fn law_grouped(kind: RuntimeKind, vs: Seq<AvailableView>)
    ensures
        sorted_for(grouped(kind, vs), group_newer_first()),
        majors_distinct(grouped(kind, vs)),
        forall|i: int| 0 <= i < grouped(kind, vs).len() ==> shown_group_ok(kind, vs, #[trigger] grouped(kind, vs)[i]),
        covers(kind, vs, grouped(kind, vs)),
{
    let c = collect_groups(kind, vs);
    lemma_collect_groups(kind, vs);
    let f = c.map_values(|g: GroupView| finish_group(g));
    let g = grouped(kind, vs);
    assert(g == stable_sort(f, group_newer_first()));
    lemma_newer_strict_weak();
    lemma_stable_sort_sorted(f, group_newer_first());
    lemma_stable_sort_contains(f, group_newer_first());
    assert forall|i: int| 0 <= i < f.len() implies shown_group_ok(kind, vs, #[trigger] f[i]) && f[i].major == c[i].major by {
        lemma_finish_group(kind, vs, c[i]);
    }
    assert(majors_distinct(f)) by {
        assert forall|a: int, b: int| 0 <= a < f.len() && 0 <= b < f.len() && a != b implies (#[trigger] f[a]).major
            != (#[trigger] f[b]).major by {
            lemma_finish_group(kind, vs, c[a]);
            lemma_finish_group(kind, vs, c[b]);
            assert(c[a].major != c[b].major);
        }
    }
    lemma_stable_sort_pairwise(f, group_newer_first(), |a: GroupView, b: GroupView| a.major != b.major);
    assert forall|i: int| 0 <= i < g.len() implies shown_group_ok(kind, vs, #[trigger] g[i]) by {
        assert(g.contains(g[i]));
        assert(f.contains(g[i]));
        let j = choose|j: int| 0 <= j < f.len() && f[j] == g[i];
        assert(shown_group_ok(kind, vs, f[j]));
    }
    assert forall|k: int| 0 <= k < vs.len() implies has_version(g, major_spec(kind, (#[trigger] vs[k]).version), vs[k].version) by {
        assert(has_version(c, major_spec(kind, vs[k].version), vs[k].version));
        let w = choose|w: int| 0 <= w < c.len() && (#[trigger] c[w]).major == major_spec(kind, vs[k].version)
            && c[w].versions.contains(vs[k].version);
        lemma_finish_group(kind, vs, c[w]);
        assert(f[w] == finish_group(c[w]));
        assert(f[w].versions.contains(vs[k].version));
        assert(f.contains(f[w]));
        assert(g.contains(f[w]));
        let q = choose|q: int| 0 <= q < g.len() && g[q] == f[w];
        assert(g[q].major == major_spec(kind, vs[k].version));
    }
}

// ---------------------------------------------------------------------------
// Leftovers of interrupted installations
// ---------------------------------------------------------------------------

/// What the start-up check does with an entry of the downloads directory.
#[derive(Debug, Clone, Copy, PartialEq, Eq, Structural)]
pub enum Leftover {
    /// An unpacking directory left by an interrupted installation.
    RemoveDir,
    /// An archive older than a day.
    RemoveFile,
    Keep,
}

/// What the start-up check does with an entry: directories named
/// `extract-...` are removed; files whose name ends with `.tar.gz`, or
/// whose extension (`Path::extension`) is `zip`, and that were modified
/// more than a day (86400 s) ago (`age_secs`, when known) are removed; the
/// rest is kept.
pub open spec fn leftover_spec(is_dir: bool, name: Option<Seq<char>>, extension: Option<Seq<char>>, age_secs: Option<u64>) -> Leftover {
    if is_dir && (name matches Some(n) && starts_with(n, "extract-"@)) {
        Leftover::RemoveDir
    } else if ((name matches Some(n) && ends_with(n, ".tar.gz"@)) || (extension matches Some(e) && e == "zip"@))
        && (age_secs matches Some(a) && a > 86400) {
        Leftover::RemoveFile
    } else {
        Leftover::Keep
    }
}

/// What the start-up check does with an entry of the downloads directory.
pub fn leftover_action(is_dir: bool, name: Option<&str>, extension: Option<&str>, age_secs: Option<u64>) -> (r: Leftover)
    ensures
        r == leftover_spec(
            is_dir,
            match name {
                Some(n) => Some(n@),
                None => None,
            },
            match extension {
                Some(e) => Some(e@),
                None => None,
            },
            age_secs,
        ),
{
    if is_dir {
        if let Some(n) = name {
            let p = chars_of("extract-");
            if has_prefix(chars_of(n).as_slice(), p.as_slice()) {
                return Leftover::RemoveDir;
            }
        }
    }
    let tarball = match name {
        Some(n) => has_suffix(chars_of(n).as_slice(), chars_of(".tar.gz").as_slice()),
        None => false,
    };
    let zip = match extension {
        Some(e) => same(chars_of(e).as_slice(), chars_of("zip").as_slice()),
        None => false,
    };
    let old = match age_secs {
        Some(a) => a > 86400,
        None => false,
    };
    if (tarball || zip) && old {
        Leftover::RemoveFile
    } else {
        Leftover::Keep
    }
}

/// The journal line of an action's outcome: `detail → 成功`, or
/// `detail → 失败: error`.
pub open spec fn outcome_spec(detail: Seq<char>, error: Option<Seq<char>>) -> Seq<char> {
    match error {
        None => detail + " → 成功"@,
        Some(e) => detail + " → 失败: "@ + e,
    }
}

/// The journal line of an action's outcome.
pub fn outcome_text(detail: &str, result: &Result<(), String>) -> (r: String)
    ensures
        r@ == outcome_spec(
            detail@,
            match result {
                Ok(_) => None,
                Err(e) => Some(e@),
            },
        ),
{
    let mut s = chars_of(detail);
    match result {
        Ok(_) => push_str(&mut s, " → 成功"),
        Err(e) => {
            push_str(&mut s, " → 失败: ");
            push_str(&mut s, e.as_str());
        },
    }
    string_of(s.as_slice())
}

} // verus!
