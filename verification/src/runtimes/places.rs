//! Where each runtime is looked for: the places of every platform, in
//! order, and the candidate directories they yield once the caller has
//! listed the directories to search.
use vstd::prelude::*;
use crate::activation::Platform;
use crate::models::RuntimeKind;
use crate::installer::{kind_dir, kind_dir_spec};
use crate::platform::{join_spec, path_join};
use crate::text::{chars_of, has_prefix, owned, same, starts_with};

verus! {

/// The places the search starts from: the home directory, the Windows
/// folders named by `ProgramFiles`, `ProgramData`, `APPDATA` and
/// `LOCALAPPDATA` (when set), and the managed installations.
#[derive(Debug, Clone)]
pub struct Places {
    pub home: Option<String>,
    pub program_files: Option<String>,
    pub program_data: Option<String>,
    pub app_data: Option<String>,
    pub local_app_data: Option<String>,
    pub installs: String,
}

/// Which entries of a listed directory are candidates, and where.
#[derive(Debug, Clone, Copy, PartialEq, Eq, Structural)]
pub enum Rule {
    /// Every entry.
    Every,
    /// Every entry, its `installation` directory.
    Installation,
    /// Entries named `node...` (Homebrew).
    NodeBrew,
    /// Entries named `go` or `go@...`, their `libexec` when they have one
    /// (Homebrew).
    GoBrew,
    /// Entries named `apache-maven...`.
    MavenOfficial,
    /// Entries named `python` or `python@...` (Homebrew).
    PythonBrew,
}

/// A place to look.
#[derive(Debug, Clone)]
pub enum Source {
    /// A directory itself.
    Fixed { path: String, vendor: String },
    /// A directory, when the file `probe` exists.
    Probed { path: String, probe: String, vendor: String },
    /// The entries of a directory that `rule` keeps.
    Listed { dir: String, rule: Rule, vendor: String },
}

/// A place to look, as text.
pub enum SourceView {
    Fixed(Seq<char>, Seq<char>),
    Probed(Seq<char>, Seq<char>, Seq<char>),
    Listed(Seq<char>, Rule, Seq<char>),
}

impl View for Source {
    type V = SourceView;

    open spec fn view(&self) -> SourceView {
        match self {
            Source::Fixed { path, vendor } => SourceView::Fixed(path@, vendor@),
            Source::Probed { path, probe, vendor } => SourceView::Probed(path@, probe@, vendor@),
            Source::Listed { dir, rule, vendor } => SourceView::Listed(dir@, *rule, vendor@),
        }
    }
}

/// One entry of a listed directory: its name and whether it holds a
/// `libexec` directory.
#[derive(Debug, Clone)]
pub struct DirEntry {
    pub name: String,
    pub has_libexec: bool,
}

/// A directory the caller listed and its entries (none when it could not
/// be read).
#[derive(Debug, Clone)]
pub struct Listing {
    pub dir: String,
    pub entries: Vec<DirEntry>,
}

/// The views of places.
pub open spec fn source_views(s: Seq<Source>) -> Seq<SourceView> {
    Seq::new(s.len(), |i: int| s[i]@)
}

/// The views of entries.
pub open spec fn entry_views(es: Seq<DirEntry>) -> Seq<(Seq<char>, bool)> {
    Seq::new(es.len(), |i: int| (es[i].name@, es[i].has_libexec))
}

/// The views of listings.
pub open spec fn listing_views(ls: Seq<Listing>) -> Seq<(Seq<char>, Seq<(Seq<char>, bool)>)> {
    Seq::new(ls.len(), |i: int| (ls[i].dir@, entry_views(ls[i].entries@)))
}

/// The views of candidate directories with their vendors.
pub open spec fn pair_views(v: Seq<(String, String)>) -> Seq<(Seq<char>, Seq<char>)> {
    Seq::new(v.len(), |i: int| (v[i].0@, v[i].1@))
}

// ---------------------------------------------------------------------------
// Expanding the places
// ---------------------------------------------------------------------------

/// The entries listed for `dir`: those of the first listing of it, none
/// when it was not listed.
pub open spec fn entries_in(ls: Seq<(Seq<char>, Seq<(Seq<char>, bool)>)>, dir: Seq<char>) -> Seq<(Seq<char>, bool)>
    decreases ls.len(),
{
    if ls.len() == 0 {
        seq![]
    } else if ls[0].0 == dir {
        ls[0].1
    } else {
        entries_in(ls.drop_first(), dir)
    }
}

/// Whether `rule` keeps an entry named `name`.
pub open spec fn rule_keep(rule: Rule, name: Seq<char>) -> bool {
    match rule {
        Rule::Every => true,
        Rule::Installation => true,
        Rule::NodeBrew => starts_with(name, "node"@),
        Rule::GoBrew => name == "go"@ || starts_with(name, "go@"@),
        Rule::MavenOfficial => starts_with(name, "apache-maven"@),
        Rule::PythonBrew => starts_with(name, "python@"@) || name == "python"@,
    }
}

/// The candidate directory `rule` takes for an entry of `dir`.
pub open spec fn rule_dir(platform: Platform, rule: Rule, dir: Seq<char>, e: (Seq<char>, bool)) -> Seq<char> {
    let p = join_spec(platform, dir, e.0);
    match rule {
        Rule::Installation => join_spec(platform, p, "installation"@),
        Rule::GoBrew => if e.1 {
            join_spec(platform, p, "libexec"@)
        } else {
            p
        },
        _ => p,
    }
}

/// The candidates `rule` takes from the entries `es` of `dir`, in order.
pub open spec fn listed_spec(
    platform: Platform,
    rule: Rule,
    dir: Seq<char>,
    vendor: Seq<char>,
    es: Seq<(Seq<char>, bool)>,
) -> Seq<(Seq<char>, Seq<char>)>
    decreases es.len(),
{
    if es.len() == 0 {
        seq![]
    } else {
        let r = listed_spec(platform, rule, dir, vendor, es.drop_last());
        if rule_keep(rule, es.last().0) {
            r.push((rule_dir(platform, rule, dir, es.last()), vendor))
        } else {
            r
        }
    }
}

/// The candidates of one place, given the listings `ls` and the probe
/// files found (`probes`).
pub open spec fn expand_spec(
    platform: Platform,
    s: SourceView,
    ls: Seq<(Seq<char>, Seq<(Seq<char>, bool)>)>,
    probes: Seq<Seq<char>>,
) -> Seq<(Seq<char>, Seq<char>)> {
    match s {
        SourceView::Fixed(p, v) => seq![(p, v)],
        SourceView::Probed(p, f, v) => if probes.contains(f) {
            seq![(p, v)]
        } else {
            seq![]
        },
        SourceView::Listed(d, r, v) => listed_spec(platform, r, d, v, entries_in(ls, d)),
    }
}

/// The candidates of the places `ss`, in order.
pub open spec fn candidates_spec(
    platform: Platform,
    ss: Seq<SourceView>,
    ls: Seq<(Seq<char>, Seq<(Seq<char>, bool)>)>,
    probes: Seq<Seq<char>>,
) -> Seq<(Seq<char>, Seq<char>)>
    decreases ss.len(),
{
    if ss.len() == 0 {
        seq![]
    } else {
        candidates_spec(platform, ss.drop_last(), ls, probes) + expand_spec(platform, ss.last(), ls, probes)
    }
}

/// Whether `rule` keeps an entry.
fn keeps(rule: Rule, name: &str) -> (r: bool)
    ensures
        r == rule_keep(rule, name@),
{
    let n = chars_of(name);
    match rule {
        Rule::Every => true,
        Rule::Installation => true,
        Rule::NodeBrew => has_prefix(n.as_slice(), chars_of("node").as_slice()),
        Rule::GoBrew => same(n.as_slice(), chars_of("go").as_slice()) || has_prefix(
            n.as_slice(),
            chars_of("go@").as_slice(),
        ),
        Rule::MavenOfficial => has_prefix(n.as_slice(), chars_of("apache-maven").as_slice()),
        Rule::PythonBrew => has_prefix(n.as_slice(), chars_of("python@").as_slice()) || same(
            n.as_slice(),
            chars_of("python").as_slice(),
        ),
    }
}

/// The candidate directory for an entry.
fn entry_dir(platform: Platform, rule: Rule, dir: &str, e: &DirEntry) -> (r: String)
    ensures
        r@ == rule_dir(platform, rule, dir@, (e.name@, e.has_libexec)),
{
    let p = path_join(platform, dir, e.name.as_str());
    match rule {
        Rule::Installation => path_join(platform, p.as_str(), "installation"),
        Rule::GoBrew => if e.has_libexec {
            path_join(platform, p.as_str(), "libexec")
        } else {
            p
        },
        _ => p,
    }
}

/// The index of the first listing of `dir`.
fn listing_of(ls: &Vec<Listing>, dir: &str) -> (r: Option<usize>)
    ensures
        match r {
            Some(k) => k < ls@.len() && entries_in(listing_views(ls@), dir@) == entry_views(ls@[k as int].entries@),
            None => entries_in(listing_views(ls@), dir@) == Seq::<(Seq<char>, bool)>::empty(),
        },
{
    let d = chars_of(dir);
    let ghost all = listing_views(ls@);
    let mut i: usize = 0;
    assert(all.skip(0) =~= all);
    while i < ls.len()
        invariant
            i <= ls@.len(),
            d@ == dir@,
            all == listing_views(ls@),
            entries_in(all, dir@) == entries_in(all.skip(i as int), dir@),
        decreases ls@.len() - i,
    {
        let here = same(chars_of(ls[i].dir.as_str()).as_slice(), d.as_slice());
        proof {
            let s = all.skip(i as int);
            assert(s[0] == all[i as int]);
            assert(s.drop_first() =~= all.skip(i + 1));
        }
        if here {
            return Some(i);
        }
        i = i + 1;
    }
    assert(all.skip(ls@.len() as int) =~= Seq::<(Seq<char>, Seq<(Seq<char>, bool)>)>::empty());
    None
}

/// Appends the candidates `rule` takes from the entries `es` of `dir`.
fn push_listed(
    out: &mut Vec<(String, String)>,
    platform: Platform,
    rule: Rule,
    dir: &str,
    vendor: &str,
    es: &Vec<DirEntry>,
)
    ensures
        pair_views(final(out)@) == pair_views(old(out)@) + listed_spec(platform, rule, dir@, vendor@, entry_views(es@)),
{
    let ghost start = pair_views(out@);
    let ghost all = entry_views(es@);
    let mut i: usize = 0;
    assert(all.take(0) =~= Seq::<(Seq<char>, bool)>::empty());
    assert(start + Seq::<(Seq<char>, Seq<char>)>::empty() =~= start);
    while i < es.len()
        invariant
            i <= es@.len(),
            all == entry_views(es@),
            pair_views(out@) == start + listed_spec(platform, rule, dir@, vendor@, all.take(i as int)),
        decreases es@.len() - i,
    {
        let e = &es[i];
        proof {
            let t = all.take(i + 1);
            assert(t.drop_last() =~= all.take(i as int));
            assert(t.last() == (e.name@, e.has_libexec));
        }
        if keeps(rule, e.name.as_str()) {
            let ghost before = pair_views(out@);
            let p = entry_dir(platform, rule, dir, e);
            out.push((p, owned(vendor)));
            assert(pair_views(out@) =~= before.push((rule_dir(platform, rule, dir@, (e.name@, e.has_libexec)), vendor@)));
            assert(start + listed_spec(platform, rule, dir@, vendor@, all.take(i as int)).push(
                (rule_dir(platform, rule, dir@, (e.name@, e.has_libexec)), vendor@),
            ) =~= (start + listed_spec(platform, rule, dir@, vendor@, all.take(i as int))).push(
                (rule_dir(platform, rule, dir@, (e.name@, e.has_libexec)), vendor@),
            ));
        }
        i = i + 1;
    }
    assert(all.take(es@.len() as int) =~= all);
}

/// Whether `probe` is among the files found.
fn found(probes: &Vec<String>, probe: &str) -> (r: bool)
    ensures
        r == Seq::new(probes@.len(), |i: int| probes@[i]@).contains(probe@),
{
    let ghost ps = Seq::new(probes@.len(), |i: int| probes@[i]@);
    let p = chars_of(probe);
    let mut i: usize = 0;
    while i < probes.len()
        invariant
            i <= probes@.len(),
            p@ == probe@,
            ps == Seq::new(probes@.len(), |i: int| probes@[i]@),
            forall|j: int| 0 <= j < i ==> ps[j] != probe@,
        decreases probes@.len() - i,
    {
        if same(chars_of(probes[i].as_str()).as_slice(), p.as_slice()) {
            assert(ps[i as int] == probe@);
            return true;
        }
        i = i + 1;
    }
    false
}

/// The candidate directories of the places `sources`, with their vendors,
/// from the directories the caller listed (`listings`) and the probe files
/// it found (`probes`).
pub fn candidate_dirs(
    platform: Platform,
    sources: &Vec<Source>,
    listings: &Vec<Listing>,
    probes: &Vec<String>,
) -> (r: Vec<(String, String)>)
    ensures
        pair_views(r@) == candidates_spec(
            platform,
            source_views(sources@),
            listing_views(listings@),
            Seq::new(probes@.len(), |i: int| probes@[i]@),
        ),
{
    let ghost ss = source_views(sources@);
    let ghost ls = listing_views(listings@);
    let ghost ps = Seq::new(probes@.len(), |i: int| probes@[i]@);
    let mut out: Vec<(String, String)> = Vec::new();
    let mut i: usize = 0;
    assert(ss.take(0) =~= Seq::<SourceView>::empty());
    assert(pair_views(out@) =~= Seq::<(Seq<char>, Seq<char>)>::empty());
    while i < sources.len()
        invariant
            i <= sources@.len(),
            ss == source_views(sources@),
            ls == listing_views(listings@),
            ps == Seq::new(probes@.len(), |i: int| probes@[i]@),
            pair_views(out@) == candidates_spec(platform, ss.take(i as int), ls, ps),
        decreases sources@.len() - i,
    {
        let ghost before = pair_views(out@);
        proof {
            let t = ss.take(i + 1);
            assert(t.drop_last() =~= ss.take(i as int));
            assert(t.last() == sources@[i as int]@);
        }
        match &sources[i] {
            Source::Fixed { path, vendor } => {
                out.push((owned(path.as_str()), owned(vendor.as_str())));
                assert(pair_views(out@) =~= before + seq![(path@, vendor@)]);
            },
            Source::Probed { path, probe, vendor } => {
                if found(probes, probe.as_str()) {
                    out.push((owned(path.as_str()), owned(vendor.as_str())));
                    assert(pair_views(out@) =~= before + seq![(path@, vendor@)]);
                } else {
                    assert(before + Seq::<(Seq<char>, Seq<char>)>::empty() =~= before);
                }
            },
            Source::Listed { dir, rule, vendor } => {
                match listing_of(listings, dir.as_str()) {
                    Some(k) => {
                        push_listed(&mut out, platform, *rule, dir.as_str(), vendor.as_str(), &listings[k].entries);
                    },
                    None => {
                        let none: Vec<DirEntry> = Vec::new();
                        assert(entry_views(none@) =~= Seq::<(Seq<char>, bool)>::empty());
                        push_listed(&mut out, platform, *rule, dir.as_str(), vendor.as_str(), &none);
                    },
                }
            },
        }
        i = i + 1;
    }
    assert(ss.take(sources@.len() as int) =~= ss);
    out
}

// ---------------------------------------------------------------------------
// The places of each runtime
// ---------------------------------------------------------------------------

/// An optional text as a sequence.
pub open spec fn opt_view(o: Option<String>) -> Option<Seq<char>> {
    match o {
        Some(s) => Some(s@),
        None => None,
    }
}

/// A place under `base` when it is known.
pub open spec fn fixed_under(platform: Platform, base: Option<Seq<char>>, sub: Seq<char>, vendor: Seq<char>) -> Seq<
    SourceView,
> {
    match base {
        Some(b) => seq![SourceView::Fixed(join_spec(platform, b, sub), vendor)],
        None => seq![],
    }
}

/// The entries of a directory under `base` when it is known.
pub open spec fn listed_under(
    platform: Platform,
    base: Option<Seq<char>>,
    sub: Seq<char>,
    rule: Rule,
    vendor: Seq<char>,
) -> Seq<SourceView> {
    match base {
        Some(b) => seq![SourceView::Listed(join_spec(platform, b, sub), rule, vendor)],
        None => seq![],
    }
}

/// The managed versions of `kind`.
pub open spec fn managed_source(platform: Platform, installs: Seq<char>, kind: RuntimeKind) -> SourceView {
    SourceView::Listed(join_spec(platform, installs, kind_dir_spec(kind)), Rule::Every, "novaenv"@)
}

/// Where Node.js is looked for.
pub open spec fn node_places(platform: Platform, pl: Places) -> Seq<SourceView> {
    let home = opt_view(pl.home);
    let m = managed_source(platform, pl.installs@, RuntimeKind::Node);
    match platform {
        Platform::MacOs => listed_under(platform, home, ".nvm/versions/node"@, Rule::Every, "nvm"@) + listed_under(
            platform,
            home,
            ".local/share/fnm/node-versions"@,
            Rule::Installation,
            "fnm"@,
        ) + fixed_under(platform, home, ".local/node"@, "local"@) + seq![
            SourceView::Listed("/opt/homebrew/opt"@, Rule::NodeBrew, "homebrew"@),
            SourceView::Listed("/usr/local/opt"@, Rule::NodeBrew, "homebrew"@),
            SourceView::Fixed("/usr/local/node"@, "official"@),
            m,
        ],
        Platform::Windows => fixed_under(platform, opt_view(pl.program_files), "nodejs"@, "official"@) + listed_under(
            platform,
            opt_view(pl.app_data),
            "nvm"@,
            Rule::Every,
            "nvm-windows"@,
        ) + listed_under(platform, opt_view(pl.app_data), "fnm/node-versions"@, Rule::Installation, "fnm"@)
            + fixed_under(platform, opt_view(pl.local_app_data), "Programs/nodejs"@, "official"@) + seq![m],
        Platform::Linux => seq![],
    }
}

/// Where Go is looked for.
pub open spec fn go_places(platform: Platform, pl: Places) -> Seq<SourceView> {
    let home = opt_view(pl.home);
    let m = managed_source(platform, pl.installs@, RuntimeKind::Go);
    match platform {
        Platform::MacOs => seq![
            SourceView::Fixed("/usr/local/go"@, "official"@),
            SourceView::Listed("/opt/homebrew/opt"@, Rule::GoBrew, "homebrew"@),
            SourceView::Listed("/usr/local/opt"@, Rule::GoBrew, "homebrew"@),
        ] + listed_under(platform, home, ".goenv/versions"@, Rule::Every, "goenv"@) + seq![m],
        Platform::Windows => fixed_under(platform, opt_view(pl.program_files), "Go"@, "official"@) + listed_under(
            platform,
            home,
            ".goenv/versions"@,
            Rule::Every,
            "goenv"@,
        ) + fixed_under(platform, home, "go"@, "user"@) + seq![m],
        Platform::Linux => seq![],
    }
}

/// Where Maven is looked for.
pub open spec fn maven_places(platform: Platform, pl: Places) -> Seq<SourceView> {
    let m = managed_source(platform, pl.installs@, RuntimeKind::Maven);
    match platform {
        Platform::MacOs => seq![
            SourceView::Fixed("/opt/homebrew/opt/maven"@, "homebrew"@),
            SourceView::Fixed("/usr/local/opt/maven"@, "homebrew"@),
            SourceView::Listed("/opt/local"@, Rule::MavenOfficial, "official"@),
            m,
        ],
        Platform::Windows => fixed_under(platform, opt_view(pl.program_files), "apache-maven"@, "official"@)
            + listed_under(platform, opt_view(pl.program_data), "chocolatey/lib/maven"@, Rule::Every, "chocolatey"@)
            + seq![m],
        Platform::Linux => seq![],
    }
}

/// Where Python is looked for.
pub open spec fn python_places(platform: Platform, pl: Places) -> Seq<SourceView> {
    let home = opt_view(pl.home);
    let mine = match home {
        Some(_) => seq![managed_source(platform, pl.installs@, RuntimeKind::Python)],
        None => seq![],
    };
    match platform {
        Platform::MacOs => listed_under(platform, home, ".pyenv/versions"@, Rule::Every, "pyenv"@) + mine + seq![
            SourceView::Listed("/opt/homebrew/opt"@, Rule::PythonBrew, "homebrew"@),
            SourceView::Listed("/usr/local/opt"@, Rule::PythonBrew, "homebrew"@),
            SourceView::Probed("/usr/bin"@, "/usr/bin/python3"@, "system"@),
        ],
        Platform::Windows => listed_under(platform, home, ".pyenv/pyenv-win/versions"@, Rule::Every, "pyenv"@)
            + mine + fixed_under(platform, opt_view(pl.local_app_data), "Programs/Python"@, "official"@),
        Platform::Linux => seq![],
    }
}

/// Where Rust is looked for.
pub open spec fn rust_places(platform: Platform, pl: Places) -> Seq<SourceView> {
    let home = opt_view(pl.home);
    let mine = match home {
        Some(_) => seq![managed_source(platform, pl.installs@, RuntimeKind::Rust)],
        None => seq![],
    };
    match platform {
        Platform::MacOs => listed_under(platform, home, ".rustup/toolchains"@, Rule::Every, "rustup"@) + mine + seq![
            SourceView::Probed("/opt/homebrew/opt/rust"@, "/opt/homebrew/opt/rust/bin/rustc"@, "homebrew"@),
            SourceView::Probed("/usr/local/opt/rust"@, "/usr/local/opt/rust/bin/rustc"@, "homebrew"@),
        ],
        Platform::Windows => listed_under(platform, home, ".rustup/toolchains"@, Rule::Every, "rustup"@) + mine,
        Platform::Linux => seq![],
    }
}

/// The directories that hold JDKs.
pub open spec fn java_places(platform: Platform, pl: Places) -> Seq<SourceView> {
    let m = managed_source(platform, pl.installs@, RuntimeKind::Java);
    let pf = opt_view(pl.program_files);
    match platform {
        Platform::MacOs => seq![SourceView::Listed("/Library/Java/JavaVirtualMachines"@, Rule::Every, "system"@)]
            + listed_under(platform, opt_view(pl.home), "Library/Java/JavaVirtualMachines"@, Rule::Every, "user"@)
            + seq![m],
        Platform::Windows => listed_under(platform, pf, "Java"@, Rule::Every, "official"@) + listed_under(
            platform,
            pf,
            "Eclipse Adoptium"@,
            Rule::Every,
            "official"@,
        ) + listed_under(platform, pf, "Microsoft"@, Rule::Every, "official"@) + listed_under(
            platform,
            opt_view(pl.local_app_data),
            "Programs"@,
            Rule::Every,
            "user"@,
        ) + seq![m],
        Platform::Linux => seq![],
    }
}

/// Where `kind` is looked for on `platform`, in order; for Java the
/// directories whose entries are JDKs.
pub open spec fn places_spec(kind: RuntimeKind, platform: Platform, pl: Places) -> Seq<SourceView> {
    match kind {
        RuntimeKind::Java => java_places(platform, pl),
        RuntimeKind::Node => node_places(platform, pl),
        RuntimeKind::Go => go_places(platform, pl),
        RuntimeKind::Maven => maven_places(platform, pl),
        RuntimeKind::Python => python_places(platform, pl),
        RuntimeKind::Rust => rust_places(platform, pl),
    }
}

fn add_fixed(out: &mut Vec<Source>, path: String, vendor: &str)
    ensures
        source_views(final(out)@) == source_views(old(out)@).push(SourceView::Fixed(path@, vendor@)),
{
    out.push(Source::Fixed { path, vendor: owned(vendor) });
    assert(source_views(out@) =~= source_views(old(out)@).push(SourceView::Fixed(path@, vendor@)));
}

fn add_listed(out: &mut Vec<Source>, dir: String, rule: Rule, vendor: &str)
    ensures
        source_views(final(out)@) == source_views(old(out)@).push(SourceView::Listed(dir@, rule, vendor@)),
{
    out.push(Source::Listed { dir, rule, vendor: owned(vendor) });
    assert(source_views(out@) =~= source_views(old(out)@).push(SourceView::Listed(dir@, rule, vendor@)));
}

fn add_probed(out: &mut Vec<Source>, path: &str, probe: &str, vendor: &str)
    ensures
        source_views(final(out)@) == source_views(old(out)@).push(SourceView::Probed(path@, probe@, vendor@)),
{
    out.push(Source::Probed { path: owned(path), probe: owned(probe), vendor: owned(vendor) });
    assert(source_views(out@) =~= source_views(old(out)@).push(SourceView::Probed(path@, probe@, vendor@)));
}

/// Appends the place under `base` when it is known.
fn add_fixed_under(out: &mut Vec<Source>, platform: Platform, base: &Option<String>, sub: &str, vendor: &str)
    ensures
        source_views(final(out)@) == source_views(old(out)@) + fixed_under(platform, opt_view(*base), sub@, vendor@),
{
    match base {
        Some(b) => {
            add_fixed(out, path_join(platform, b.as_str(), sub), vendor);
        },
        None => {},
    }
    assert(source_views(out@) =~= source_views(old(out)@) + fixed_under(platform, opt_view(*base), sub@, vendor@));
}

/// Appends the directory under `base` to list when it is known.
fn add_listed_under(out: &mut Vec<Source>, platform: Platform, base: &Option<String>, sub: &str, rule: Rule, vendor: &str)
    ensures
        source_views(final(out)@) == source_views(old(out)@) + listed_under(platform, opt_view(*base), sub@, rule, vendor@),
{
    match base {
        Some(b) => {
            add_listed(out, path_join(platform, b.as_str(), sub), rule, vendor);
        },
        None => {},
    }
    assert(source_views(out@) =~= source_views(old(out)@) + listed_under(platform, opt_view(*base), sub@, rule, vendor@));
}

/// Appends the managed versions of `kind`.
fn add_managed(out: &mut Vec<Source>, platform: Platform, installs: &str, kind: RuntimeKind)
    ensures
        source_views(final(out)@) == source_views(old(out)@).push(managed_source(platform, installs@, kind)),
{
    add_listed(out, path_join(platform, installs, kind_dir(kind)), Rule::Every, "novaenv");
}

fn node_sources(platform: Platform, pl: &Places) -> (r: Vec<Source>)
    ensures
        source_views(r@) == node_places(platform, *pl),
{
    let mut out: Vec<Source> = Vec::new();
    match platform {
        Platform::MacOs => {
            add_listed_under(&mut out, platform, &pl.home, ".nvm/versions/node", Rule::Every, "nvm");
            add_listed_under(&mut out, platform, &pl.home, ".local/share/fnm/node-versions", Rule::Installation, "fnm");
            add_fixed_under(&mut out, platform, &pl.home, ".local/node", "local");
            add_listed(&mut out, owned("/opt/homebrew/opt"), Rule::NodeBrew, "homebrew");
            add_listed(&mut out, owned("/usr/local/opt"), Rule::NodeBrew, "homebrew");
            add_fixed(&mut out, owned("/usr/local/node"), "official");
            add_managed(&mut out, platform, pl.installs.as_str(), RuntimeKind::Node);
        },
        Platform::Windows => {
            add_fixed_under(&mut out, platform, &pl.program_files, "nodejs", "official");
            add_listed_under(&mut out, platform, &pl.app_data, "nvm", Rule::Every, "nvm-windows");
            add_listed_under(&mut out, platform, &pl.app_data, "fnm/node-versions", Rule::Installation, "fnm");
            add_fixed_under(&mut out, platform, &pl.local_app_data, "Programs/nodejs", "official");
            add_managed(&mut out, platform, pl.installs.as_str(), RuntimeKind::Node);
        },
        Platform::Linux => {},
    }
    assert(source_views(out@) =~= node_places(platform, *pl));
    out
}

fn go_sources(platform: Platform, pl: &Places) -> (r: Vec<Source>)
    ensures
        source_views(r@) == go_places(platform, *pl),
{
    let mut out: Vec<Source> = Vec::new();
    match platform {
        Platform::MacOs => {
            add_fixed(&mut out, owned("/usr/local/go"), "official");
            add_listed(&mut out, owned("/opt/homebrew/opt"), Rule::GoBrew, "homebrew");
            add_listed(&mut out, owned("/usr/local/opt"), Rule::GoBrew, "homebrew");
            add_listed_under(&mut out, platform, &pl.home, ".goenv/versions", Rule::Every, "goenv");
            add_managed(&mut out, platform, pl.installs.as_str(), RuntimeKind::Go);
        },
        Platform::Windows => {
            add_fixed_under(&mut out, platform, &pl.program_files, "Go", "official");
            add_listed_under(&mut out, platform, &pl.home, ".goenv/versions", Rule::Every, "goenv");
            add_fixed_under(&mut out, platform, &pl.home, "go", "user");
            add_managed(&mut out, platform, pl.installs.as_str(), RuntimeKind::Go);
        },
        Platform::Linux => {},
    }
    assert(source_views(out@) =~= go_places(platform, *pl));
    out
}

fn maven_sources(platform: Platform, pl: &Places) -> (r: Vec<Source>)
    ensures
        source_views(r@) == maven_places(platform, *pl),
{
    let mut out: Vec<Source> = Vec::new();
    match platform {
        Platform::MacOs => {
            add_fixed(&mut out, owned("/opt/homebrew/opt/maven"), "homebrew");
            add_fixed(&mut out, owned("/usr/local/opt/maven"), "homebrew");
            add_listed(&mut out, owned("/opt/local"), Rule::MavenOfficial, "official");
            add_managed(&mut out, platform, pl.installs.as_str(), RuntimeKind::Maven);
        },
        Platform::Windows => {
            add_fixed_under(&mut out, platform, &pl.program_files, "apache-maven", "official");
            add_listed_under(&mut out, platform, &pl.program_data, "chocolatey/lib/maven", Rule::Every, "chocolatey");
            add_managed(&mut out, platform, pl.installs.as_str(), RuntimeKind::Maven);
        },
        Platform::Linux => {},
    }
    assert(source_views(out@) =~= maven_places(platform, *pl));
    out
}

fn python_sources(platform: Platform, pl: &Places) -> (r: Vec<Source>)
    ensures
        source_views(r@) == python_places(platform, *pl),
{
    let mut out: Vec<Source> = Vec::new();
    match platform {
        Platform::MacOs => {
            add_listed_under(&mut out, platform, &pl.home, ".pyenv/versions", Rule::Every, "pyenv");
            if pl.home.is_some() {
                add_managed(&mut out, platform, pl.installs.as_str(), RuntimeKind::Python);
            }
            add_listed(&mut out, owned("/opt/homebrew/opt"), Rule::PythonBrew, "homebrew");
            add_listed(&mut out, owned("/usr/local/opt"), Rule::PythonBrew, "homebrew");
            add_probed(&mut out, "/usr/bin", "/usr/bin/python3", "system");
        },
        Platform::Windows => {
            add_listed_under(&mut out, platform, &pl.home, ".pyenv/pyenv-win/versions", Rule::Every, "pyenv");
            if pl.home.is_some() {
                add_managed(&mut out, platform, pl.installs.as_str(), RuntimeKind::Python);
            }
            add_fixed_under(&mut out, platform, &pl.local_app_data, "Programs/Python", "official");
        },
        Platform::Linux => {},
    }
    assert(source_views(out@) =~= python_places(platform, *pl));
    out
}

fn rust_sources(platform: Platform, pl: &Places) -> (r: Vec<Source>)
    ensures
        source_views(r@) == rust_places(platform, *pl),
{
    let mut out: Vec<Source> = Vec::new();
    match platform {
        Platform::MacOs => {
            add_listed_under(&mut out, platform, &pl.home, ".rustup/toolchains", Rule::Every, "rustup");
            if pl.home.is_some() {
                add_managed(&mut out, platform, pl.installs.as_str(), RuntimeKind::Rust);
            }
            add_probed(&mut out, "/opt/homebrew/opt/rust", "/opt/homebrew/opt/rust/bin/rustc", "homebrew");
            add_probed(&mut out, "/usr/local/opt/rust", "/usr/local/opt/rust/bin/rustc", "homebrew");
        },
        Platform::Windows => {
            add_listed_under(&mut out, platform, &pl.home, ".rustup/toolchains", Rule::Every, "rustup");
            if pl.home.is_some() {
                add_managed(&mut out, platform, pl.installs.as_str(), RuntimeKind::Rust);
            }
        },
        Platform::Linux => {},
    }
    assert(source_views(out@) =~= rust_places(platform, *pl));
    out
}

fn java_sources(platform: Platform, pl: &Places) -> (r: Vec<Source>)
    ensures
        source_views(r@) == java_places(platform, *pl),
{
    let mut out: Vec<Source> = Vec::new();
    match platform {
        Platform::MacOs => {
            add_listed(&mut out, owned("/Library/Java/JavaVirtualMachines"), Rule::Every, "system");
            add_listed_under(&mut out, platform, &pl.home, "Library/Java/JavaVirtualMachines", Rule::Every, "user");
            add_managed(&mut out, platform, pl.installs.as_str(), RuntimeKind::Java);
        },
        Platform::Windows => {
            add_listed_under(&mut out, platform, &pl.program_files, "Java", Rule::Every, "official");
            add_listed_under(&mut out, platform, &pl.program_files, "Eclipse Adoptium", Rule::Every, "official");
            add_listed_under(&mut out, platform, &pl.program_files, "Microsoft", Rule::Every, "official");
            add_listed_under(&mut out, platform, &pl.local_app_data, "Programs", Rule::Every, "user");
            add_managed(&mut out, platform, pl.installs.as_str(), RuntimeKind::Java);
        },
        Platform::Linux => {},
    }
    assert(source_views(out@) =~= java_places(platform, *pl));
    out
}

/// Where `kind` is looked for on `platform`, in order: the directories
/// themselves, those kept when a file exists, and the entries of listed
/// directories (for Java the directories whose entries are JDKs).
pub fn places(kind: RuntimeKind, platform: Platform, pl: &Places) -> (r: Vec<Source>)
    ensures
        source_views(r@) == places_spec(kind, platform, *pl),
{
    match kind {
        RuntimeKind::Java => java_sources(platform, pl),
        RuntimeKind::Node => node_sources(platform, pl),
        RuntimeKind::Go => go_sources(platform, pl),
        RuntimeKind::Maven => maven_sources(platform, pl),
        RuntimeKind::Python => python_sources(platform, pl),
        RuntimeKind::Rust => rust_sources(platform, pl),
    }
}

} // verus!
