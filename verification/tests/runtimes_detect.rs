use novaenv::activation::Platform;
use novaenv::models::RuntimeKind;
use novaenv::runtimes::java::{dedup_homes, extract_quoted, extract_version, parse_java_home_v, parse_java_version, parse_release, resolve_jdk_home};
use novaenv::runtimes::{all, scan_dirs, scan_java, Candidate, RuntimeAdapter};
use novaenv::runtimes::go::{infer_from_name as go_infer, parse_go_version, version_from_file};
use novaenv::runtimes::maven::parse_mvn_version;
use novaenv::runtimes::node::{infer_from_dir_name as node_infer_dir, trim_v_prefix, NodeAdapter};
use novaenv::runtimes::python::{infer_from_dir_name as python_infer_dir, parse_python_version};
use novaenv::runtimes::rust::{infer_from_dir_name as rust_infer_dir, parse_rustc_version};
use novaenv::runtimes::places::{candidate_dirs, places, DirEntry, Listing, Places, Rule, Source};

#[test]
fn trims_v_prefix() {
    assert_eq!(trim_v_prefix("v22.11.0"), Some("22.11.0".to_string()));
    assert_eq!(trim_v_prefix("22.11.0"), Some("22.11.0".to_string()));
    assert_eq!(trim_v_prefix(""), None);
}

#[test]
fn node_infers_from_dir_names() {
    let nvm = "/Users/x/.nvm/versions/node/v22.11.0";
    assert_eq!(node_infer_dir(Platform::MacOs, nvm), Some("22.11.0".to_string()));
    let brew = "/opt/homebrew/opt/node@22";
    assert_eq!(node_infer_dir(Platform::MacOs, brew), Some("22".to_string()));
    let plain = "/usr/local/node";
    assert!(node_infer_dir(Platform::MacOs, plain).is_none());
}

#[test]
fn parses_version_output() {
    assert_eq!(parse_python_version("Python 3.13.1\n"), Some("3.13.1".to_string()));
    assert_eq!(parse_python_version("Python 3.9.6"), Some("3.9.6".to_string()));
    assert_eq!(parse_python_version("command not found"), None);
}

#[test]
fn python_infers_from_dir_names() {
    assert_eq!(
        python_infer_dir(Platform::MacOs, "/Users/x/.pyenv/versions/3.13.1"),
        Some("3.13.1".to_string())
    );
    assert_eq!(
        python_infer_dir(Platform::MacOs, "/opt/homebrew/opt/python@3.13"),
        Some("3.13".to_string())
    );
    assert_eq!(python_infer_dir(Platform::MacOs, "/usr/bin"), None);
}

#[test]
fn parses_rustc_version() {
    assert_eq!(
        parse_rustc_version("rustc 1.88.0 (a1c84a5e0 2025-07-24)\n"),
        Some("1.88.0".to_string())
    );
    assert_eq!(parse_rustc_version("command not found"), None);
}

#[test]
fn rust_infers_from_dir_names() {
    assert_eq!(
        rust_infer_dir(Platform::MacOs, "/Users/x/.rustup/toolchains/1.88.0-aarch64-apple-darwin"),
        Some("1.88.0".to_string())
    );
    assert_eq!(
        rust_infer_dir(Platform::MacOs, "/Users/x/.novaenv/installs/rust/1.88.0"),
        Some("1.88.0".to_string())
    );
    assert_eq!(rust_infer_dir(Platform::MacOs, "/opt/homebrew/opt/rust"), None);
}

#[test]
fn python_version_drops_suffixes() {
    assert_eq!(parse_python_version("Python 3.13.1+\n"), Some("3.13.1".to_string()));
    assert_eq!(parse_python_version("Python 3.13.0rc1"), None);
    assert_eq!(parse_python_version("Python 3.13"), None);
}

#[test]
fn extracts_longest_dotted_version() {
    assert_eq!(extract_version("jdk-17.0.10.jdk"), Some("17.0.10".to_string()));
    assert_eq!(extract_version("zulu-8.1-jdk-21.0.2.1"), Some("21.0.2.1".to_string()));
    assert_eq!(extract_version("a1.2b3.4"), Some("1.2".to_string()));
    assert_eq!(extract_version("jdk17"), None);
    assert_eq!(extract_version("apache-maven-3.9.16"), Some("3.9.16".to_string()));
}

#[test]
fn reads_release_file() {
    let content = "IMPLEMENTOR=\"x\"\nJAVA_VERSION=\"21.0.6\"\nJAVA_VENDOR = \"Eclipse Adoptium\"\n";
    assert_eq!(
        parse_release(content),
        Some(("21.0.6".to_string(), "Eclipse Adoptium".to_string()))
    );
    assert_eq!(
        parse_release("JAVA_VERSION=\"17\"\n"),
        Some(("17".to_string(), "Unknown".to_string()))
    );
    assert_eq!(parse_release("JAVA_VENDOR=\"x\"\n"), None);
}

#[test]
fn reads_java_home_listing() {
    let out = "Matching Java Virtual Machines (2):\n    17.0.10 (x86_64) \"Eclipse Adoptium\" - \"OpenJDK 17.0.10\" /Library/Java/JavaVirtualMachines/temurin-17.jdk/Contents/Home\n    21 (arm64) - /Library/Java/x/Contents/Home\n\n/Library/Java/JavaVirtualMachines/temurin-17.jdk/Contents/Home\n";
    let homes = parse_java_home_v(out);
    assert_eq!(homes.len(), 3);
    assert_eq!(homes[0].0, "/Library/Java/JavaVirtualMachines/temurin-17.jdk/Contents/Home");
    assert_eq!(homes[0].1, "17.0.10");
    assert_eq!(homes[0].2, "Eclipse Adoptium");
    assert_eq!(homes[1].2, "Unknown");
    assert_eq!(homes[2].1, "/Library/Java/JavaVirtualMachines/temurin-17.jdk/Contents/Home");
    assert_eq!(extract_quoted("a \"b\" c"), Some("b".to_string()));
    assert_eq!(extract_quoted("no quotes"), None);
}

#[test]
fn resolves_jdk_homes() {
    let r = resolve_jdk_home(Platform::MacOs, "/L/temurin-21.jdk", true, Some("JAVA_VERSION=\"21.0.6\"\n"), None);
    assert_eq!(
        r,
        Some(("/L/temurin-21.jdk/Contents/Home".to_string(), "21.0.6".to_string(), "Unknown".to_string()))
    );
    let r = resolve_jdk_home(Platform::MacOs, "/L/jdk-17.0.2", true, None, None);
    assert_eq!(r, Some(("/L/jdk-17.0.2".to_string(), "17.0.2".to_string(), "Unknown".to_string())));
    assert_eq!(resolve_jdk_home(Platform::MacOs, "/L/jdk", false, None, None), None);
}

#[test]
fn java_version_from_stderr() {
    assert_eq!(
        parse_java_version("openjdk version \"17.0.10\" 2024-01-16\nOpenJDK Runtime"),
        Some("17.0.10".to_string())
    );
    assert_eq!(parse_java_version("java: not found"), None);
}

#[test]
fn homes_are_sorted_and_unique() {
    let homes = vec![
        ("/b".to_string(), "2".to_string(), "x".to_string()),
        ("/a".to_string(), "1".to_string(), "x".to_string()),
        ("/b".to_string(), "3".to_string(), "y".to_string()),
    ];
    let r = dedup_homes(homes);
    assert_eq!(r.len(), 2);
    assert_eq!(r[0].0, "/a");
    assert_eq!(r[1].1, "2");
}

#[test]
fn go_versions_from_file_name_and_output() {
    assert_eq!(version_from_file("go1.23.4\n"), Some("1.23.4".to_string()));
    assert_eq!(version_from_file("go"), None);
    assert_eq!(go_infer("go@1.23"), Some("1.23".to_string()));
    assert_eq!(go_infer("go1.22.1"), Some("1.22.1".to_string()));
    assert_eq!(go_infer("go"), None);
    assert_eq!(go_infer("1.21.0"), Some("1.21.0".to_string()));
    assert_eq!(parse_go_version("go version go1.23.4 darwin/arm64\n"), Some("1.23.4".to_string()));
    assert_eq!(parse_go_version("go version"), None);
}

#[test]
fn maven_version_output() {
    assert_eq!(
        parse_mvn_version("Apache Maven 3.9.16 (abc)\nMaven home: /x"),
        Some("3.9.16".to_string())
    );
    assert_eq!(parse_mvn_version("Apache Maven x"), None);
    assert_eq!(parse_mvn_version(""), None);
}

#[test]
fn scans_candidate_directories_once() {
    let c = |dir: &str, is_dir: bool, output: Option<&str>| Candidate {
        dir: dir.to_string(),
        vendor: "nvm".to_string(),
        is_dir,
        output: output.map(|s| s.to_string()),
    };
    let candidates = vec![
        c("/h/.nvm/versions/node/v20.1.0", true, Some("v20.1.2\n")),
        c("/h/.nvm/versions/node/v20.1.0/", true, None),
        c("/h/missing/v18.0.0", false, None),
        c("/h/.novaenv/installs/node/22.0.0", true, None),
        c("/usr/local/node", true, None),
    ];
    let active = vec!["/h/.nvm/versions/node/v20.1.0".to_string()];
    let found = scan_dirs(RuntimeKind::Node, Platform::MacOs, "/h/.novaenv/installs", &active, &candidates);
    assert_eq!(found.len(), 2);
    assert_eq!(found[0].version, "20.1.2");
    assert!(found[0].is_default);
    assert!(!found[0].managed);
    assert_eq!(found[1].version, "22.0.0");
    assert!(found[1].managed);
    assert!(!found[1].is_default);
}

#[test]
fn scans_java_homes() {
    let homes = vec![
        ("/j/b".to_string(), "17".to_string(), "x".to_string()),
        ("/j/a".to_string(), "21".to_string(), "y".to_string()),
    ];
    let r = scan_java(Platform::MacOs, "/j", &vec!["/j/b".to_string()], homes);
    assert_eq!(r.len(), 2);
    assert_eq!(r[0].path, "/j/a");
    assert!(r[0].managed);
    assert!(r[1].is_default);
}

#[test]
fn adapters_read_active_versions() {
    assert_eq!(NodeAdapter.active_version(Some("v22.1.0\n")), Some("22.1.0".to_string()));
    assert_eq!(NodeAdapter.active_version(None), None);
    assert_eq!(NodeAdapter.kind(), RuntimeKind::Node);
    assert_eq!(all(), vec![RuntimeKind::Java, RuntimeKind::Node, RuntimeKind::Go, RuntimeKind::Maven, RuntimeKind::Python]);
}

fn mac_places() -> Places {
    Places {
        home: Some("/Users/x".to_string()),
        program_files: None,
        program_data: None,
        app_data: None,
        local_app_data: None,
        installs: "/Users/x/.novaenv/installs".to_string(),
    }
}

fn entry(name: &str, has_libexec: bool) -> DirEntry {
    DirEntry { name: name.to_string(), has_libexec }
}

fn describe(s: &Source) -> String {
    match s {
        Source::Fixed { path, vendor } => format!("fixed {path} {vendor}"),
        Source::Probed { path, probe, vendor } => format!("probed {path} {probe} {vendor}"),
        Source::Listed { dir, rule, vendor } => format!("listed {dir} {rule:?} {vendor}"),
    }
}

#[test]
fn node_places_on_macos() {
    let got: Vec<String> = places(RuntimeKind::Node, Platform::MacOs, &mac_places()).iter().map(describe).collect();
    assert_eq!(
        got,
        vec![
            "listed /Users/x/.nvm/versions/node Every nvm",
            "listed /Users/x/.local/share/fnm/node-versions Installation fnm",
            "fixed /Users/x/.local/node local",
            "listed /opt/homebrew/opt NodeBrew homebrew",
            "listed /usr/local/opt NodeBrew homebrew",
            "fixed /usr/local/node official",
            "listed /Users/x/.novaenv/installs/node Every novaenv",
        ]
    );
    assert!(places(RuntimeKind::Node, Platform::Linux, &mac_places()).is_empty());
    let mut no_home = mac_places();
    no_home.home = None;
    assert_eq!(places(RuntimeKind::Node, Platform::MacOs, &no_home).len(), 4);
}

#[test]
fn places_on_windows() {
    let pl = Places {
        home: Some("C:\\Users\\x".to_string()),
        program_files: Some("C:\\Program Files".to_string()),
        program_data: Some("C:\\ProgramData".to_string()),
        app_data: None,
        local_app_data: Some("C:\\Users\\x\\AppData\\Local".to_string()),
        installs: "C:\\Users\\x\\.novaenv\\installs".to_string(),
    };
    let got: Vec<String> = places(RuntimeKind::Go, Platform::Windows, &pl).iter().map(describe).collect();
    assert_eq!(
        got,
        vec![
            "fixed C:\\Program Files\\Go official",
            "listed C:\\Users\\x\\.goenv/versions Every goenv",
            "fixed C:\\Users\\x\\go user",
            "listed C:\\Users\\x\\.novaenv\\installs\\go Every novaenv",
        ]
    );
    let maven: Vec<String> = places(RuntimeKind::Maven, Platform::Windows, &pl).iter().map(describe).collect();
    assert_eq!(maven[1], "listed C:\\ProgramData\\chocolatey/lib/maven Every chocolatey");
}

#[test]
fn candidates_from_listings() {
    let sources = places(RuntimeKind::Go, Platform::MacOs, &mac_places());
    let listings = vec![
        Listing {
            dir: "/opt/homebrew/opt".to_string(),
            entries: vec![entry("go", true), entry("go@1.22", false), entry("gopls", true), entry("node", false)],
        },
        Listing { dir: "/Users/x/.novaenv/installs/go".to_string(), entries: vec![entry("1.24.3", false)] },
    ];
    let got = candidate_dirs(Platform::MacOs, &sources, &listings, &Vec::new());
    let pairs: Vec<(&str, &str)> = got.iter().map(|(d, v)| (d.as_str(), v.as_str())).collect();
    assert_eq!(
        pairs,
        vec![
            ("/usr/local/go", "official"),
            ("/opt/homebrew/opt/go/libexec", "homebrew"),
            ("/opt/homebrew/opt/go@1.22", "homebrew"),
            ("/Users/x/.novaenv/installs/go/1.24.3", "novaenv"),
        ]
    );
    let rust = places(RuntimeKind::Rust, Platform::MacOs, &mac_places());
    let found = vec!["/usr/local/opt/rust/bin/rustc".to_string()];
    let got = candidate_dirs(Platform::MacOs, &rust, &Vec::new(), &found);
    assert_eq!(got, vec![("/usr/local/opt/rust".to_string(), "homebrew".to_string())]);
    let fnm = vec![Source::Listed { dir: "/f".to_string(), rule: Rule::Installation, vendor: "fnm".to_string() }];
    let listings = vec![Listing { dir: "/f".to_string(), entries: vec![entry("v22.1.0", false)] }];
    assert_eq!(
        candidate_dirs(Platform::MacOs, &fnm, &listings, &Vec::new()),
        vec![("/f/v22.1.0/installation".to_string(), "fnm".to_string())]
    );
}
