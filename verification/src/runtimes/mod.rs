//! The runtimes the library finds and switches: the adapters, the scan of
//! candidate directories, and the overview of what is in effect.
pub mod go;
pub mod java;
pub mod maven;
pub mod node;
pub mod places;
pub mod python;
pub mod rust;

use vstd::prelude::*;
use crate::activation::Platform;
use crate::models::{RuntimeKind, RuntimeOverview, RuntimeVersion, RuntimesPayload, VersionView};
use crate::platform::{
    file_name, file_name_spec, path_starts_with, same_path, same_path_spec, starts_with_path,
};
use crate::runtimes::go::GoAdapter;
use crate::runtimes::java::{dedup_homes, dedup_homes_spec, by_path, extract_spec, extract_version, triple_views, JavaAdapter};
use crate::runtimes::maven::MavenAdapter;
use crate::runtimes::node::NodeAdapter;
use crate::runtimes::python::PythonAdapter;
use crate::runtimes::rust::RustAdapter;
use crate::order::stable_sort;
use crate::text::strs_of;

verus! {

/// A runtime adapter: which runtime it manages and how it reads the
/// version in effect from what the runtime's program printed.
pub trait RuntimeAdapter {
    /// The runtime this adapter manages.
    fn kind(&self) -> RuntimeKind;

    /// The version in effect, from the output of the runtime's program
    /// asked for its version (`None` when it could not be run).
    fn active_version(&self, output: Option<&str>) -> Option<String>;
}

/// The version a program output names for `kind`.
pub open spec fn parsed_spec(kind: RuntimeKind, output: Seq<char>) -> Option<Seq<char>> {
    match kind {
        RuntimeKind::Java => crate::runtimes::java::java_version_spec(output),
        RuntimeKind::Node => crate::runtimes::node::trim_v_spec(output),
        RuntimeKind::Go => crate::runtimes::go::go_version_spec(output),
        RuntimeKind::Maven => crate::runtimes::maven::mvn_version_spec(output),
        RuntimeKind::Python => crate::runtimes::python::python_version_spec(output),
        RuntimeKind::Rust => crate::runtimes::rust::rustc_version_spec(output),
    }
}

/// The version in effect for `kind`, from what its program printed.
pub open spec fn active_spec(kind: RuntimeKind, output: Option<Seq<char>>) -> Option<Seq<char>> {
    match output {
        Some(o) => parsed_spec(kind, o),
        None => None,
    }
}

/// The version a program output names for `kind`.
pub fn parse_output(kind: RuntimeKind, output: &str) -> (r: Option<String>)
    ensures
        match parsed_spec(kind, output@) {
            Some(v) => r matches Some(s) && s@ == v,
            None => r is None,
        },
{
    match kind {
        RuntimeKind::Java => crate::runtimes::java::parse_java_version(output),
        RuntimeKind::Node => crate::runtimes::node::trim_v_prefix(output),
        RuntimeKind::Go => crate::runtimes::go::parse_go_version(output),
        RuntimeKind::Maven => crate::runtimes::maven::parse_mvn_version(output),
        RuntimeKind::Python => crate::runtimes::python::parse_python_version(output),
        RuntimeKind::Rust => crate::runtimes::rust::parse_rustc_version(output),
    }
}

/// The version in effect for `kind`.
fn active_of(kind: RuntimeKind, output: Option<&str>) -> (r: Option<String>)
    ensures
        match active_spec(
            kind,
            match output {
                Some(o) => Some(o@),
                None => None,
            },
        ) {
            Some(v) => r matches Some(s) && s@ == v,
            None => r is None,
        },
{
    match output {
        Some(o) => parse_output(kind, o),
        None => None,
    }
}

impl RuntimeAdapter for JavaAdapter {
    fn kind(&self) -> (r: RuntimeKind)
        ensures
            r == RuntimeKind::Java,
    {
        RuntimeKind::Java
    }

    fn active_version(&self, output: Option<&str>) -> (r: Option<String>)
        ensures
            match active_spec(RuntimeKind::Java, match output { Some(o) => Some(o@), None => None }) {
                Some(v) => r matches Some(s) && s@ == v,
                None => r is None,
            },
    {
        active_of(RuntimeKind::Java, output)
    }
}

impl RuntimeAdapter for NodeAdapter {
    fn kind(&self) -> (r: RuntimeKind)
        ensures
            r == RuntimeKind::Node,
    {
        RuntimeKind::Node
    }

    fn active_version(&self, output: Option<&str>) -> (r: Option<String>)
        ensures
            match active_spec(RuntimeKind::Node, match output { Some(o) => Some(o@), None => None }) {
                Some(v) => r matches Some(s) && s@ == v,
                None => r is None,
            },
    {
        active_of(RuntimeKind::Node, output)
    }
}

impl RuntimeAdapter for GoAdapter {
    fn kind(&self) -> (r: RuntimeKind)
        ensures
            r == RuntimeKind::Go,
    {
        RuntimeKind::Go
    }

    fn active_version(&self, output: Option<&str>) -> (r: Option<String>)
        ensures
            match active_spec(RuntimeKind::Go, match output { Some(o) => Some(o@), None => None }) {
                Some(v) => r matches Some(s) && s@ == v,
                None => r is None,
            },
    {
        active_of(RuntimeKind::Go, output)
    }
}

impl RuntimeAdapter for MavenAdapter {
    fn kind(&self) -> (r: RuntimeKind)
        ensures
            r == RuntimeKind::Maven,
    {
        RuntimeKind::Maven
    }

    fn active_version(&self, output: Option<&str>) -> (r: Option<String>)
        ensures
            match active_spec(RuntimeKind::Maven, match output { Some(o) => Some(o@), None => None }) {
                Some(v) => r matches Some(s) && s@ == v,
                None => r is None,
            },
    {
        active_of(RuntimeKind::Maven, output)
    }
}

impl RuntimeAdapter for PythonAdapter {
    fn kind(&self) -> (r: RuntimeKind)
        ensures
            r == RuntimeKind::Python,
    {
        RuntimeKind::Python
    }

    fn active_version(&self, output: Option<&str>) -> (r: Option<String>)
        ensures
            match active_spec(RuntimeKind::Python, match output { Some(o) => Some(o@), None => None }) {
                Some(v) => r matches Some(s) && s@ == v,
                None => r is None,
            },
    {
        active_of(RuntimeKind::Python, output)
    }
}

impl RuntimeAdapter for RustAdapter {
    fn kind(&self) -> (r: RuntimeKind)
        ensures
            r == RuntimeKind::Rust,
    {
        RuntimeKind::Rust
    }

    fn active_version(&self, output: Option<&str>) -> (r: Option<String>)
        ensures
            match active_spec(RuntimeKind::Rust, match output { Some(o) => Some(o@), None => None }) {
                Some(v) => r matches Some(s) && s@ == v,
                None => r is None,
            },
    {
        active_of(RuntimeKind::Rust, output)
    }
}

/// The runtimes that are scanned, in order.
pub open spec fn all_spec() -> Seq<RuntimeKind> {
    seq![RuntimeKind::Java, RuntimeKind::Node, RuntimeKind::Go, RuntimeKind::Maven, RuntimeKind::Python]
}

/// The runtimes that are scanned: Java, Node.js, Go, Maven and Python.
pub fn all() -> (r: Vec<RuntimeKind>)
    ensures
        r@ == all_spec(),
{
    let mut r: Vec<RuntimeKind> = Vec::new();
    r.push(RuntimeKind::Java);
    r.push(RuntimeKind::Node);
    r.push(RuntimeKind::Go);
    r.push(RuntimeKind::Maven);
    r.push(RuntimeKind::Python);
    assert(r@ =~= all_spec());
    r
}

// ---------------------------------------------------------------------------
// Scanning candidate directories
// ---------------------------------------------------------------------------

/// What the caller found for one candidate directory of a runtime.
#[derive(Debug, Clone)]
pub struct Candidate {
    pub dir: String,
    /// Where it comes from (nvm, homebrew, official, novaenv, ...).
    pub vendor: String,
    /// Whether it is a directory.
    pub is_dir: bool,
    /// What its program printed when asked its version (for Go: its
    /// `VERSION` file), when that could be run or read.
    pub output: Option<String>,
}

/// The version in a directory name for `kind`.
pub open spec fn infer_spec(kind: RuntimeKind, name: Seq<char>) -> Option<Seq<char>> {
    match kind {
        RuntimeKind::Java => extract_spec(name),
        RuntimeKind::Node => crate::runtimes::node::infer_spec(name),
        RuntimeKind::Go => crate::runtimes::go::infer_spec(name),
        RuntimeKind::Maven => crate::runtimes::maven::infer_spec(name),
        RuntimeKind::Python => crate::runtimes::python::infer_spec(name),
        RuntimeKind::Rust => crate::runtimes::rust::infer_spec(name),
    }
}

/// The version a candidate output names (for Go the `VERSION` file).
pub open spec fn candidate_parse(kind: RuntimeKind, output: Seq<char>) -> Option<Seq<char>> {
    if kind == RuntimeKind::Go {
        crate::runtimes::go::version_file_spec(output)
    } else {
        parsed_spec(kind, output)
    }
}

/// The version of a candidate directory: from its output, else from its
/// name.
pub open spec fn candidate_version(kind: RuntimeKind, platform: Platform, c: Candidate) -> Option<Seq<char>> {
    let parsed = match c.output {
        Some(o) => candidate_parse(kind, o@),
        None => None,
    };
    match parsed {
        Some(v) => Some(v),
        None => match file_name_spec(platform, c.dir@) {
            Some(n) => infer_spec(kind, n),
            None => None,
        },
    }
}

/// The version of a candidate directory.
fn version_of(kind: RuntimeKind, platform: Platform, c: &Candidate) -> (r: Option<String>)
    ensures
        match candidate_version(kind, platform, *c) {
            Some(v) => r matches Some(s) && s@ == v,
            None => r is None,
        },
{
    let parsed = match &c.output {
        Some(o) => if kind == RuntimeKind::Go {
            crate::runtimes::go::version_from_file(o.as_str())
        } else {
            parse_output(kind, o.as_str())
        },
        None => None,
    };
    match parsed {
        Some(v) => Some(v),
        None => match file_name(platform, c.dir.as_str()) {
            Some(n) => match kind {
                RuntimeKind::Java => extract_version(n.as_str()),
                RuntimeKind::Node => crate::runtimes::node::infer_from_name(n.as_str()),
                RuntimeKind::Go => crate::runtimes::go::infer_from_name(n.as_str()),
                RuntimeKind::Maven => extract_version(n.as_str()),
                RuntimeKind::Python => crate::runtimes::python::infer_from_name(n.as_str()),
                RuntimeKind::Rust => crate::runtimes::rust::infer_from_name(n.as_str()),
            },
            None => None,
        },
    }
}

/// Whether a directory is among the active homes.
pub open spec fn is_active_spec(platform: Platform, active: Seq<Seq<char>>, dir: Seq<char>) -> bool {
    exists|k: int| 0 <= k < active.len() && same_path_spec(platform, #[trigger] active[k], dir)
}

/// Every home the managed block activates counts, at any position: a
/// directory that is the same path as any active home is active (so after
/// switching several runtimes each one's home is marked default), and a
/// directory that is the same path as none is not.
pub proof fn law_active_dirs(platform: Platform, active: Seq<Seq<char>>, dir: Seq<char>, k: int)
    ensures
        0 <= k < active.len() && same_path_spec(platform, active[k], dir) ==> is_active_spec(platform, active, dir),
        0 <= k < active.len() ==> is_active_spec(platform, active, active[k]),
        (forall|j: int| 0 <= j < active.len() ==> !same_path_spec(platform, #[trigger] active[j], dir))
            ==> !is_active_spec(platform, active, dir),
{
    if 0 <= k < active.len() {
        assert(same_path_spec(platform, active[k], active[k]));
    }
}

/// Whether a directory is among the active homes.
pub fn is_active_dir(platform: Platform, active: &Vec<String>, dir: &str) -> (r: bool)
    ensures
        r == is_active_spec(platform, strs_of(active@), dir@),
{
    let mut i: usize = 0;
    while i < active.len()
        invariant
            i <= active@.len(),
            forall|k: int| 0 <= k < i ==> !same_path_spec(platform, #[trigger] strs_of(active@)[k], dir@),
        decreases active@.len() - i,
    {
        if same_path(platform, active[i].as_str(), dir) {
            assert(same_path_spec(platform, strs_of(active@)[i as int], dir@));
            return true;
        }
        assert(strs_of(active@)[i as int] == active@[i as int]@);
        i = i + 1;
    }
    false
}

/// What the scan records of a found version.
pub open spec fn found_view(
    kind: RuntimeKind,
    platform: Platform,
    installs: Seq<char>,
    active: Seq<Seq<char>>,
    path: Seq<char>,
    version: Seq<char>,
    vendor: Seq<char>,
) -> VersionView {
    VersionView {
        kind,
        version,
        vendor,
        path,
        is_default: is_active_spec(platform, active, path),
        managed: path_starts_with(platform, path, installs),
    }
}

/// The scan state (directories seen, versions found) after candidate `c`:
/// candidates that are not directories or whose directory was seen are
/// passed over; the others are seen, and found when they have a version.
pub open spec fn scan_step(
    kind: RuntimeKind,
    platform: Platform,
    installs: Seq<char>,
    active: Seq<Seq<char>>,
    st: (Seq<Seq<char>>, Seq<VersionView>),
    c: Candidate,
) -> (Seq<Seq<char>>, Seq<VersionView>) {
    if !c.is_dir || exists|k: int| 0 <= k < st.0.len() && same_path_spec(platform, #[trigger] st.0[k], c.dir@) {
        st
    } else {
        let seen = st.0.push(c.dir@);
        match candidate_version(kind, platform, c) {
            Some(v) => (seen, st.1.push(found_view(kind, platform, installs, active, c.dir@, v, c.vendor@))),
            None => (seen, st.1),
        }
    }
}

/// The scan state after the candidates `cs`.
pub open spec fn scan_spec(
    kind: RuntimeKind,
    platform: Platform,
    installs: Seq<char>,
    active: Seq<Seq<char>>,
    cs: Seq<Candidate>,
) -> (Seq<Seq<char>>, Seq<VersionView>)
    decreases cs.len(),
{
    if cs.len() == 0 {
        (seq![], seq![])
    } else {
        scan_step(kind, platform, installs, active, scan_spec(kind, platform, installs, active, cs.drop_last()), cs.last())
    }
}

/// The views of a list of versions.
pub open spec fn version_views(v: Seq<RuntimeVersion>) -> Seq<VersionView> {
    Seq::new(v.len(), |i: int| v[i]@)
}

/// The versions of `kind` found among the candidate directories, in
/// order: each directory once, with the version its program printed or
/// its name holds; `active` are the homes in effect and `installs_dir` the
/// managed directory.
pub fn scan_dirs(
    kind: RuntimeKind,
    platform: Platform,
    installs_dir: &str,
    active: &Vec<String>,
    candidates: &Vec<Candidate>,
) -> (r: Vec<RuntimeVersion>)
    ensures
        version_views(r@) == scan_spec(kind, platform, installs_dir@, strs_of(active@), candidates@).1,
{
    let ghost cs = candidates@;
    let ghost act = strs_of(active@);
    let mut seen: Vec<String> = Vec::new();
    let mut out: Vec<RuntimeVersion> = Vec::new();
    let mut i: usize = 0;
    assert(cs.take(0) =~= Seq::<Candidate>::empty());
    assert(strs_of(seen@) =~= Seq::<Seq<char>>::empty());
    assert(version_views(out@) =~= Seq::<VersionView>::empty());
    while i < candidates.len()
        invariant
            i <= candidates@.len(),
            cs == candidates@,
            act == strs_of(active@),
            (strs_of(seen@), version_views(out@)) == scan_spec(kind, platform, installs_dir@, act, cs.take(i as int)),
        decreases candidates@.len() - i,
    {
        let c = &candidates[i];
        proof {
            let t = cs.take(i + 1);
            assert(t.drop_last() =~= cs.take(i as int));
            assert(t.last() == *c);
        }
        let ghost st = (strs_of(seen@), version_views(out@));
        if c.is_dir {
            let mut k: usize = 0;
            let mut dup = false;
            while k < seen.len() && !dup
                invariant
                    k <= seen@.len(),
                    !dup ==> forall|j: int| 0 <= j < k ==> !same_path_spec(platform, #[trigger] strs_of(seen@)[j], c.dir@),
                    dup ==> exists|j: int| 0 <= j < seen@.len() && same_path_spec(platform, #[trigger] strs_of(seen@)[j], c.dir@),
                decreases seen@.len() - k + (if dup {
                    0int
                } else {
                    1int
                }),
            {
                assert(strs_of(seen@)[k as int] == seen@[k as int]@);
                if same_path(platform, seen[k].as_str(), c.dir.as_str()) {
                    dup = true;
                } else {
                    k = k + 1;
                }
            }
            if !dup {
                let ghost seen_before = strs_of(seen@);
                seen.push(c.dir.clone());
                assert(strs_of(seen@) =~= seen_before.push(c.dir@));
                match version_of(kind, platform, c) {
                    Some(v) => {
                        let rv = RuntimeVersion {
                            kind,
                            version: v,
                            vendor: c.vendor.clone(),
                            path: c.dir.clone(),
                            is_default: is_active_dir(platform, active, c.dir.as_str()),
                            managed: starts_with_path(platform, c.dir.as_str(), installs_dir),
                        };
                        let ghost ob = version_views(out@);
                        out.push(rv);
                        assert(version_views(out@) =~= ob.push(rv@));
                    },
                    None => {},
                }
            }
        }
        i = i + 1;
    }
    assert(cs.take(candidates@.len() as int) =~= cs);
    out
}

/// What the Java scan records: the homes sorted and without repeats,
/// each with whether it is in effect and whether it is managed.
pub open spec fn java_scan_spec(
    platform: Platform,
    installs: Seq<char>,
    active: Seq<Seq<char>>,
    homes: Seq<(Seq<char>, Seq<char>, Seq<char>)>,
) -> Seq<VersionView> {
    dedup_homes_spec(stable_sort(homes, by_path())).map_values(
        |h: (Seq<char>, Seq<char>, Seq<char>)| found_view(RuntimeKind::Java, platform, installs, active, h.0, h.1, h.2),
    )
}

/// The JDKs found, from the (home, version, vendor) triples of the
/// listing and the directory scan.
pub fn scan_java(platform: Platform, installs_dir: &str, active: &Vec<String>, homes: Vec<(String, String, String)>) -> (r:
    Vec<RuntimeVersion>)
    ensures
        version_views(r@) == java_scan_spec(platform, installs_dir@, strs_of(active@), triple_views(homes@)),
{
    let unique = dedup_homes(homes);
    let ghost u = triple_views(unique@);
    let mut out: Vec<RuntimeVersion> = Vec::new();
    let mut i: usize = 0;
    while i < unique.len()
        invariant
            i <= unique@.len(),
            u == triple_views(unique@),
            out@.len() == i,
            forall|j: int| 0 <= j < i ==> #[trigger] out@[j]@ == found_view(
                RuntimeKind::Java,
                platform,
                installs_dir@,
                strs_of(active@),
                u[j].0,
                u[j].1,
                u[j].2,
            ),
        decreases unique@.len() - i,
    {
        let h = &unique[i];
        let rv = RuntimeVersion {
            kind: RuntimeKind::Java,
            version: h.1.clone(),
            vendor: h.2.clone(),
            path: h.0.clone(),
            is_default: is_active_dir(platform, active, h.0.as_str()),
            managed: starts_with_path(platform, h.0.as_str(), installs_dir),
        };
        out.push(rv);
        i = i + 1;
    }
    assert(version_views(out@) =~= java_scan_spec(platform, installs_dir@, strs_of(active@), triple_views(homes@)));
    out
}

// ---------------------------------------------------------------------------
// The overview
// ---------------------------------------------------------------------------

/// The versions in effect: `actives[i]` is that of the `i`-th runtime of
/// `all`, and `java_home` the value of `JAVA_HOME`.
pub fn overview(actives: &Vec<Option<String>>, java_home: Option<String>) -> (r: RuntimeOverview)
    requires
        actives@.len() == all_spec().len(),
    ensures
        r.java == actives@[0],
        r.node == actives@[1],
        r.go == actives@[2],
        r.maven == actives@[3],
        r.python == actives@[4],
        r.rust is None,
        r.java_home == java_home,
{
    RuntimeOverview {
        java: actives[0].clone(),
        node: actives[1].clone(),
        go: actives[2].clone(),
        maven: actives[3].clone(),
        python: actives[4].clone(),
        rust: None,
        java_home,
    }
}

/// The overview with every version found, the scans of the runtimes in
/// the order of `all`.
pub fn scan_all(overview: RuntimeOverview, scans: Vec<Vec<RuntimeVersion>>) -> (r: Result<RuntimesPayload, String>)
    ensures
        r matches Ok(p) && p.overview == overview && p.versions@ == scans@.map_values(|v: Vec<RuntimeVersion>| v@).flatten(),
{
    let ghost all = scans@.map_values(|v: Vec<RuntimeVersion>| v@);
    let mut versions: Vec<RuntimeVersion> = Vec::new();
    let mut rest = scans;
    let mut rev: Vec<Vec<RuntimeVersion>> = Vec::new();
    let n = rest.len();
    while rest.len() > 0
        invariant
            rest@.len() + rev@.len() == n,
            n == all.len(),
            forall|j: int| 0 <= j < rest@.len() ==> #[trigger] rest@[j]@ == all[j],
            forall|j: int| 0 <= j < rev@.len() ==> #[trigger] rev@[j]@ == all[n - 1 - j],
        decreases rest@.len(),
    {
        let v = rest.pop().unwrap();
        rev.push(v);
    }
    let mut i: usize = 0;
    assert(all.take(0).flatten() =~= Seq::<RuntimeVersion>::empty());
    while i < n
        invariant
            i <= n,
            n == all.len(),
            rev@.len() == n - i,
            forall|j: int| 0 <= j < rev@.len() ==> #[trigger] rev@[j]@ == all[n - 1 - j],
            versions@ == all.take(i as int).flatten(),
        decreases n - i,
    {
        let mut v = rev.pop().unwrap();
        assert(v@ == all[i as int]);
        let ghost before = versions@;
        versions.append(&mut v);
        proof {
            let t = all.take(i + 1);
            assert(t.drop_last() =~= all.take(i as int));
            assert(t.last() == all[i as int]);
            t.lemma_flatten_and_flatten_alt_are_equivalent();
            all.take(i as int).lemma_flatten_and_flatten_alt_are_equivalent();
            assert(t.flatten_alt() == t.drop_last().flatten_alt() + t.last());
        }
        i = i + 1;
    }
    assert(all.take(n as int) =~= all);
    Ok(RuntimesPayload { overview, versions })
}

} // verus!
