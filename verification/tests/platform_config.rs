use novaenv::activation::Platform;
use novaenv::platform::{bin_path, file_name, parse_active_config, path_join, same_path, starts_with_path};

#[test]
fn parses_managed_block_only() {
    let content = "\
# >>> NovaEnv managed >>>
export NODE_HOME=\"/Users/x/.novaenv/installs/node/26.6.0\"
export PATH=\"$NODE_HOME/bin:$PATH\"
export JAVA_HOME='/Users/x/.novaenv/installs/java/25.36.15/Contents/Home'
export PATH=\"$JAVA_HOME/bin:$PATH\"
# <<< NovaEnv managed <<<
export JAVA_HOME=\"/usr/local/java\"  # 块外变量不应被读取
";
    let paths = parse_active_config(content);
    assert_eq!(
        paths,
        vec![
            "/Users/x/.novaenv/installs/node/26.6.0",
            "/Users/x/.novaenv/installs/java/25.36.15/Contents/Home",
        ]
    );
}

#[test]
fn empty_without_block() {
    assert!(parse_active_config("export JAVA_HOME=\"/usr/local/java\"\n").is_empty());
}

#[test]
fn ignores_empty_values() {
    let content = "# >>> NovaEnv managed >>>\nexport NODE_HOME=\"\"\n# <<< NovaEnv managed <<<";
    assert!(parse_active_config(content).is_empty());
}

#[test]
fn active_config_ignores_unknown_variables_and_reads_rust_and_python() {
    let content = "# >>> NovaEnv managed >>>\nexport FOO_HOME=\"/x\"\nexport PYTHON_HOME=\"/p\"\nexport RUST_HOME=/r\n# <<< NovaEnv managed <<<\n";
    assert_eq!(parse_active_config(content), vec!["/p", "/r"]);
}

#[test]
fn active_config_stops_at_end_marker_without_start() {
    let content = "# <<< NovaEnv managed <<<\n# >>> NovaEnv managed >>>\nexport GOROOT=\"/g\"\n";
    assert!(parse_active_config(content).is_empty());
}

#[test]
fn joins_paths_like_pathbuf() {
    assert_eq!(path_join(Platform::MacOs, "/a", "b"), "/a/b");
    assert_eq!(path_join(Platform::MacOs, "/a/", "b"), "/a/b");
    assert_eq!(path_join(Platform::MacOs, "", "b"), "b");
    assert_eq!(path_join(Platform::MacOs, "/a", "/c"), "/c");
    assert_eq!(path_join(Platform::Windows, "C:\\x", "y"), "C:\\x\\y");
    assert_eq!(path_join(Platform::Windows, "C:\\x", "D:\\y"), "D:\\y");
}

#[test]
fn bin_path_adds_exe_on_windows() {
    assert_eq!(bin_path(Platform::MacOs, "/usr/local/go", "go"), "/usr/local/go/bin/go");
    assert_eq!(bin_path(Platform::Windows, "C:\\Go", "go"), "C:\\Go\\bin\\go.exe");
}

#[test]
fn file_names_and_components() {
    assert_eq!(file_name(Platform::Linux, "/a/b/"), Some("b".to_string()));
    assert_eq!(file_name(Platform::Linux, "/a/b/."), Some("b".to_string()));
    assert_eq!(file_name(Platform::Linux, "/a/.."), None);
    assert_eq!(file_name(Platform::Linux, "/"), None);
    assert_eq!(file_name(Platform::Linux, ""), None);
    assert!(same_path(Platform::Linux, "/a//b/", "/a/b"));
    assert!(!same_path(Platform::Linux, "/a/b", "a/b"));
    assert!(starts_with_path(Platform::Linux, "/home/x/.novaenv/installs/node/1", "/home/x/.novaenv/installs"));
    assert!(!starts_with_path(Platform::Linux, "/home/x/.novaenv/installs2/node", "/home/x/.novaenv/installs"));
}
