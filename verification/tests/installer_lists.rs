use novaenv::activation::Platform;
use novaenv::installer::{
    available_versions, cache_path, check_uninstall, compare_versions, disk_cache_fresh, download_url, go_versions,
    group_versions, install_dest, install_root, installs_dir, is_managed, java_majors, java_versions, locate_extracted, major_of,
    leftover_action, manage_info, node_versions, novaenv_dir, requested_version, superseded, version_source, Arch, Leftover,
    VersionSource,
};
use novaenv::models::{AvailableVersion, InstallRequest, RuntimeKind, RuntimeVersion};
use std::cmp::Ordering;

fn av(v: &str, lts: bool) -> AvailableVersion {
    AvailableVersion { version: v.to_string(), is_lts: lts }
}

#[test]
fn compares_versions_by_numbers() {
    assert_eq!(compare_versions("21.0.12", "21.0.9"), Ordering::Greater);
    assert_eq!(compare_versions("1.24", "1.23"), Ordering::Greater);
    assert_eq!(compare_versions("1.24", "1.24.0"), Ordering::Equal);
    assert_eq!(compare_versions("v1", "2"), Ordering::Less);
}

#[test]
fn majors_of_versions() {
    assert_eq!(major_of(RuntimeKind::Go, "1.24.3"), "1.24");
    assert_eq!(major_of(RuntimeKind::Go, "1"), "1");
    assert_eq!(major_of(RuntimeKind::Node, "22.11.0"), "22");
}

#[test]
fn groups_versions_newest_first() {
    let g = group_versions(
        RuntimeKind::Node,
        vec![av("20.1.0", false), av("22.1.0", false), av("20.10.0", true), av("20.1.0", false)],
    );
    assert_eq!(g.len(), 2);
    assert_eq!(g[0].major, "22");
    assert_eq!(g[1].major, "20");
    assert!(g[1].is_lts);
    assert_eq!(g[1].versions, vec!["20.10.0", "20.1.0"]);
    assert_eq!(g[1].latest, "20.10.0");
    let e = available_versions(RuntimeKind::Go, Err("boom".to_string()));
    assert_eq!(e.unwrap_err(), "boom");
}

#[test]
fn directories_and_management() {
    assert_eq!(novaenv_dir(Platform::MacOs, Some("/Users/x")), "/Users/x/.novaenv");
    assert_eq!(installs_dir(Platform::MacOs, None), "./.novaenv/installs");
    let installs = installs_dir(Platform::MacOs, Some("/Users/x"));
    assert!(is_managed(Platform::MacOs, "/Users/x/.novaenv/installs/node/26.6.0", &installs));
    assert!(!is_managed(Platform::MacOs, "/usr/local/node", &installs));
    assert_eq!(cache_path(Platform::MacOs, "/Users/x/.novaenv", RuntimeKind::Java), "/Users/x/.novaenv/cache/versions-java.json");
}

#[test]
fn download_addresses() {
    let (u, f) = download_url(RuntimeKind::Java, "21", Platform::MacOs, Arch::Aarch64, "/d").unwrap();
    assert_eq!(u, "https://api.adoptium.net/v3/binary/latest/21/ga/mac/aarch64/jdk/hotspot/normal/eclipse");
    assert_eq!(f, "/d/temurin-21.tar.gz");
    let (u, f) = download_url(RuntimeKind::Node, "22.11.0", Platform::Windows, Arch::Aarch64, "C:\\d").unwrap();
    assert_eq!(u, "https://nodejs.org/dist/v22.11.0/node-v22.11.0-win-x64.zip");
    assert_eq!(f, "C:\\d\\node-v22.11.0.zip");
    let (u, _) = download_url(RuntimeKind::Go, "1.23.4", Platform::Linux, Arch::X64, "/d").unwrap();
    assert_eq!(u, "https://go.dev/dl/go1.23.4.linux-amd64.tar.gz");
    assert!(download_url(RuntimeKind::Maven, "3.9.9", Platform::Linux, Arch::X64, "/d").is_err());
}

#[test]
fn install_steps() {
    let r = InstallRequest { kind: RuntimeKind::Node, version: "  22.1.0 ".to_string() };
    assert_eq!(requested_version(&r).unwrap(), "22.1.0");
    let r = InstallRequest { kind: RuntimeKind::Node, version: "  ".to_string() };
    assert_eq!(requested_version(&r).unwrap_err(), "版本号不能为空");
    let l = locate_extracted(Platform::MacOs, RuntimeKind::Java, "21", "/t", Some("/t/jdk-21.0.6+7"), None, false).unwrap();
    assert_eq!(l, ("21.0.6".to_string(), "/t/jdk-21.0.6+7".to_string()));
    let l = locate_extracted(Platform::MacOs, RuntimeKind::Java, "21", "/t", Some("/t/x"), Some("JAVA_VERSION=\"21.0.7\""), false).unwrap();
    assert_eq!(l.0, "21.0.7");
    assert_eq!(locate_extracted(Platform::MacOs, RuntimeKind::Node, "22", "/t", None, None, false).unwrap_err(), "解压结果为空，请重试");
    assert_eq!(locate_extracted(Platform::MacOs, RuntimeKind::Go, "1.2", "/t", None, None, true).unwrap().1, "/t/go");
    assert_eq!(locate_extracted(Platform::MacOs, RuntimeKind::Go, "1.2", "/t", None, None, false).unwrap_err(), "Go 归档结构异常，请重试");
    assert_eq!(install_dest(Platform::MacOs, "/i", RuntimeKind::Go, "1.2", false).unwrap(), "/i/go/1.2");
    assert_eq!(install_dest(Platform::MacOs, "/i", RuntimeKind::Go, "1.2", true).unwrap_err(), "版本 1.2 已安装");
}

#[test]
fn uninstall_rules() {
    let mut v = RuntimeVersion {
        kind: RuntimeKind::Node,
        version: "1".to_string(),
        vendor: "x".to_string(),
        path: "/usr/node".to_string(),
        is_default: false,
        managed: false,
    };
    assert_eq!(check_uninstall(Platform::MacOs, &v, "/i", true).unwrap_err(), "仅支持卸载 NovaEnv 安装的版本（~/.novaenv/installs 下）");
    v.path = "/i/node/1".to_string();
    v.is_default = true;
    assert_eq!(check_uninstall(Platform::MacOs, &v, "/i", true).unwrap_err(), "该版本为当前默认版本，请先切换默认后再卸载");
    v.is_default = false;
    assert_eq!(check_uninstall(Platform::MacOs, &v, "/i", false).unwrap_err(), "安装目录不存在");
    assert!(check_uninstall(Platform::MacOs, &v, "/i", true).is_ok());
}

#[test]
fn manage_info_sorts_as_text() {
    let found = vec![vec!["21.0.9".to_string(), "21.0.10".to_string()], vec![], vec!["1.2".to_string()]];
    let m = manage_info("/i".to_string(), &found, 42);
    assert_eq!(m.version_count, 3);
    assert_eq!(m.runtimes[0].versions, vec!["21.0.10", "21.0.9"]);
    assert_eq!(m.runtimes[2].kind, RuntimeKind::Go);
    assert_eq!(m.size_bytes, 42);
}

#[test]
fn release_lists() {
    let entries = vec![(Some("v22.1.0".to_string()), true), (None, false), (Some("21.0.0".to_string()), false)];
    let v = node_versions(&entries).unwrap();
    assert_eq!(v.len(), 2);
    assert_eq!(v[0].version, "22.1.0");
    assert!(v[0].is_lts);
    assert_eq!(v[1].version, "21.0.0");
    assert!(node_versions(&vec![]).is_err());
    let many: Vec<(Option<String>, bool)> = (0..100).map(|i| (Some(format!("v{i}.0.0")), false)).collect();
    assert_eq!(node_versions(&many).unwrap().len(), 80);
    let go = vec![(true, Some("go1.23.4".to_string())), (false, Some("go1.24rc1".to_string())), (true, None)];
    let v = go_versions(&go).unwrap();
    assert_eq!(v.len(), 1);
    assert_eq!(v[0].version, "1.23.4");
    assert_eq!(go_versions(&vec![]).unwrap_err(), "go.dev 未返回可用版本");
    assert_eq!(java_majors(&vec![21, 8, 17, 11], &vec![8, 11, 17, 21, 22, 23, 24]), vec![8, 11, 17, 21, 23, 24]);
    assert_eq!(java_majors(&vec![], &vec![5, 9]), vec![5, 9]);
    assert_eq!(java_majors(&vec![], &vec![5, 7, 9]), vec![7, 9]);
    let v = java_versions(&vec![21], &vec![(21, vec!["21.0.12+8.0.LTS".to_string()]), (24, vec!["24.0.1+9".to_string()])]).unwrap();
    assert_eq!(v[0].version, "21.0.12");
    assert!(v[0].is_lts);
    assert_eq!(v[1].version, "24.0.1");
    assert!(!v[1].is_lts);
    assert!(java_versions(&vec![], &vec![]).is_err());
}

#[test]
fn cache_choices() {
    assert!(disk_cache_fresh(100, 50));
    assert!(disk_cache_fresh(50, 100));
    assert!(disk_cache_fresh(21700, 100));
    assert!(!disk_cache_fresh(21701, 100));
    assert_eq!(version_source(false, Some(299_999), true), VersionSource::Memory);
    assert_eq!(version_source(false, Some(300_000), true), VersionSource::Disk);
    assert_eq!(version_source(false, None, false), VersionSource::Fetch);
    assert_eq!(version_source(true, Some(1), true), VersionSource::Fetch);
}

#[test]
fn installed_version_is_managed() {
    for platform in [Platform::MacOs, Platform::Windows, Platform::Linux] {
        let installs = installs_dir(platform, Some("/Users/x"));
        for kind in [RuntimeKind::Java, RuntimeKind::Node, RuntimeKind::Go] {
            let dest = install_dest(platform, &installs, kind, "26.6.0", false).unwrap();
            assert!(is_managed(platform, &dest, &installs), "{dest} under {installs}");
            let v = RuntimeVersion {
                kind,
                version: "26.6.0".to_string(),
                vendor: "novaenv".to_string(),
                path: dest.clone(),
                is_default: false,
                managed: true,
            };
            assert!(check_uninstall(platform, &v, &installs, true).is_ok());
        }
    }
    // A version written as an absolute path replaces the directory and is
    // no longer managed.
    let installs = installs_dir(Platform::MacOs, Some("/Users/x"));
    let dest = install_dest(Platform::MacOs, &installs, RuntimeKind::Node, "/tmp/evil", false).unwrap();
    assert_eq!(dest, "/tmp/evil");
    assert!(!is_managed(Platform::MacOs, &dest, &installs));
}

fn rv(kind: RuntimeKind, version: &str, path: &str, is_default: bool, managed: bool) -> RuntimeVersion {
    RuntimeVersion {
        kind,
        version: version.to_string(),
        vendor: "novaenv".to_string(),
        path: path.to_string(),
        is_default,
        managed,
    }
}

#[test]
fn newer_minor_replaces_older_ones() {
    let found = vec![
        rv(RuntimeKind::Node, "22.1.0", "/i/node/22.1.0", true, true),
        rv(RuntimeKind::Node, "22.3.0", "/i/node/22.3.0", false, true),
        rv(RuntimeKind::Node, "20.1.0", "/i/node/20.1.0", false, true),
        rv(RuntimeKind::Node, "22.0.0", "/nvm/v22.0.0", false, false),
        rv(RuntimeKind::Go, "22.0.0", "/i/go/22.0.0", false, true),
    ];
    let s = superseded(RuntimeKind::Node, "22.5.0", &found);
    let paths: Vec<&str> = s.remove.iter().map(|v| v.path.as_str()).collect();
    assert_eq!(paths, vec!["/i/node/22.1.0", "/i/node/22.3.0"]);
    assert!(s.promote);

    let s = superseded(RuntimeKind::Node, "22.2.0", &found);
    let paths: Vec<&str> = s.remove.iter().map(|v| v.path.as_str()).collect();
    assert_eq!(paths, vec!["/i/node/22.1.0"]);
    assert!(s.promote);

    let s = superseded(RuntimeKind::Node, "22.3.0", &found[1..].to_vec());
    assert!(s.remove.is_empty());
    assert!(!s.promote);

    let go = vec![
        rv(RuntimeKind::Go, "1.24.1", "/i/go/1.24.1", false, true),
        rv(RuntimeKind::Go, "1.23.9", "/i/go/1.23.9", true, true),
    ];
    let s = superseded(RuntimeKind::Go, "1.24.3", &go);
    assert_eq!(s.remove.len(), 1);
    assert_eq!(s.remove[0].version, "1.24.1");
    assert!(!s.promote);
}

#[test]
fn install_root_of_managed_paths() {
    let p = Platform::MacOs;
    assert_eq!(
        install_root(p, "/u/.novaenv/installs", RuntimeKind::Java, "/u/.novaenv/installs/java/21.0.5/Contents/Home"),
        Some("/u/.novaenv/installs/java/21.0.5".to_string())
    );
    assert_eq!(
        install_root(p, "/u/.novaenv/installs", RuntimeKind::Node, "/u/.novaenv/installs/node/22.1.0"),
        Some("/u/.novaenv/installs/node/22.1.0".to_string())
    );
    assert_eq!(install_root(p, "/u/.novaenv/installs", RuntimeKind::Node, "/u/.novaenv/installs/node"), None);
    assert_eq!(install_root(p, "/u/.novaenv/installs", RuntimeKind::Node, "/usr/local/node"), None);
    assert_eq!(
        install_root(Platform::Windows, "C:\\U\\.novaenv\\installs", RuntimeKind::Go, "C:\\U\\.novaenv\\installs\\go\\1.24.3"),
        Some("C:\\U\\.novaenv\\installs\\go\\1.24.3".to_string())
    );
}

#[test]
fn leftover_downloads() {
    let day = 24 * 60 * 60;
    assert_eq!(leftover_action(true, Some("extract-x"), None, Some(5)), Leftover::RemoveDir);
    assert_eq!(leftover_action(false, Some("a.tar.gz"), Some("gz"), Some(day + 1)), Leftover::RemoveFile);
    assert_eq!(leftover_action(false, Some("b.zip"), Some("zip"), Some(day + 1)), Leftover::RemoveFile);
    assert_eq!(leftover_action(false, Some("c.zip"), Some("zip"), Some(60)), Leftover::Keep);
    assert_eq!(leftover_action(false, Some("d.gz"), Some("gz"), Some(day + 1)), Leftover::Keep);
    assert_eq!(leftover_action(true, Some("node"), None, Some(day + 1)), Leftover::Keep);
}
