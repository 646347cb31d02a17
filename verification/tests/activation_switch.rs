use novaenv::activation::{activate, parse_export, preview, ps_escape, shell_lines, upsert_managed_block, validate, windows_script, ActivationPlan, Platform};
use novaenv::models::{RuntimeKind, RuntimeVersion};
use novaenv::platform::parse_active_config;

fn version(kind: RuntimeKind, path: &str) -> RuntimeVersion {
    RuntimeVersion {
        kind,
        version: "1.0".to_string(),
        vendor: "x".to_string(),
        path: path.to_string(),
        is_default: false,
        managed: false,
    }
}

#[test]
fn shell_lines_set_home_and_path() {
    let v = version(RuntimeKind::Go, "/usr/local/go");
    assert_eq!(shell_lines(&v), vec!["export GOROOT=\"/usr/local/go\"", "export PATH=\"$GOROOT/bin:$PATH\""]);
}

#[test]
fn creates_block_when_missing() {
    let lines = shell_lines(&version(RuntimeKind::Java, "/j"));
    let out = upsert_managed_block("alias ll='ls -l'\n", &lines, RuntimeKind::Java).unwrap();
    assert_eq!(
        out,
        "alias ll='ls -l'\n\n# >>> NovaEnv managed >>>\nexport JAVA_HOME=\"/j\"\nexport PATH=\"$JAVA_HOME/bin:$PATH\"\n# <<< NovaEnv managed <<<\n"
    );
}

#[test]
fn replaces_lines_of_the_same_runtime_only() {
    let existing = "a\n# >>> NovaEnv managed >>>\nexport NODE_HOME=\"/n\"\nexport PATH=\"$NODE_HOME/bin:$PATH\"\nexport JAVA_HOME=\"/old\"\nexport PATH=\"$JAVA_HOME/bin:$PATH\"\n# <<< NovaEnv managed <<<\nz\n";
    let lines = shell_lines(&version(RuntimeKind::Java, "/new"));
    let out = upsert_managed_block(existing, &lines, RuntimeKind::Java).unwrap();
    assert_eq!(
        out,
        "a\n# >>> NovaEnv managed >>>\nexport NODE_HOME=\"/n\"\nexport PATH=\"$NODE_HOME/bin:$PATH\"\nexport JAVA_HOME=\"/new\"\nexport PATH=\"$JAVA_HOME/bin:$PATH\"\n# <<< NovaEnv managed <<<\nz\n"
    );
    assert_eq!(parse_active_config(&out), vec!["/n", "/new"]);
}

#[test]
fn refuses_block_without_end() {
    let lines = shell_lines(&version(RuntimeKind::Node, "/n"));
    let err = upsert_managed_block("# >>> NovaEnv managed >>>\nexport X=1\n", &lines, RuntimeKind::Node).unwrap_err();
    assert_eq!(err, "~/.zshrc 中的 NovaEnv 管理块缺少结束标记，请手动检查该文件");
}

#[test]
fn switch_reads_back() {
    let v = version(RuntimeKind::Rust, "/r/1.88.0");
    let mut content: Option<String> = None;
    let mut written = Vec::new();
    for _ in 0..2 {
        match activate(&v, Platform::MacOs, true, "/Users/x/.zshrc", content.as_deref()).unwrap() {
            ActivationPlan::WriteZshrc { content: c, .. } => {
                written.push(c.clone());
                content = Some(c);
            }
            _ => panic!("expected a zshrc write"),
        }
    }
    assert_eq!(parse_active_config(content.as_deref().unwrap()), vec!["/r/1.88.0"]);
    assert_eq!(written[0], written[1]);
}

#[test]
fn parses_export_lines() {
    assert_eq!(parse_export("export A = \"x\" "), Some(("A".to_string(), "x".to_string())));
    assert_eq!(parse_export("export B='y'"), Some(("B".to_string(), "y".to_string())));
    assert_eq!(parse_export("set C=1"), None);
    assert_eq!(parse_export("export D"), None);
}

#[test]
fn validates_and_previews() {
    let v = version(RuntimeKind::Node, "/n");
    assert_eq!(validate(&v, false).unwrap_err(), "安装路径不存在: /n");
    assert!(validate(&v, true).is_ok());
    let p = preview(&v, Platform::MacOs, true, "/Users/x/.zshrc", true).unwrap();
    assert_eq!(p.config_file.as_deref(), Some("/Users/x/.zshrc"));
    assert_eq!(p.lines.len(), 2);
    assert_eq!(p.backup_path.as_deref(), Some("/Users/x/.zshrc.novaenv.bak"));
    let p = preview(&v, Platform::MacOs, true, "/Users/x/.zshrc", false).unwrap();
    assert!(p.backup_path.is_none());
    let p = preview(&v, Platform::Windows, true, "", false).unwrap();
    assert_eq!(p.lines, vec!["set NODE_HOME = \"/n\"（用户级）", "PATH 前置 /n\\bin（用户级）"]);
    assert!(p.config_file.is_none());
    assert_eq!(
        preview(&v, Platform::Linux, true, "", false).unwrap_err(),
        "当前平台暂不支持切换默认版本（支持 macOS / Windows）"
    );
    assert!(preview(&v, Platform::MacOs, false, "", true).is_err());
}

#[test]
fn activation_plans() {
    let v = version(RuntimeKind::Java, "C:\\Program Files\\O'Brien JDK");
    match activate(&v, Platform::Windows, true, "", None).unwrap() {
        ActivationPlan::RunPowerShell { script } => {
            assert!(script.starts_with("[Environment]::SetEnvironmentVariable('JAVA_HOME', 'C:\\Program Files\\O''Brien JDK', 'User'); $bin = 'C:\\Program Files\\O''Brien JDK\\bin';"));
            assert_eq!(script, windows_script(&v));
        }
        _ => panic!("expected a script"),
    }
    let v = version(RuntimeKind::Go, "/g");
    match activate(&v, Platform::MacOs, true, "/h/.zshrc", None).unwrap() {
        ActivationPlan::WriteZshrc { env, home, backup, .. } => {
            assert_eq!(env, vec![("GOROOT".to_string(), "/g".to_string())]);
            assert_eq!(home.as_deref(), Some("/g"));
            assert!(backup.is_none());
        }
        _ => panic!("expected a zshrc write"),
    }
    match activate(&v, Platform::MacOs, true, "/h/.zshrc", Some("alias a=b\n")).unwrap() {
        ActivationPlan::WriteZshrc { content, backup, .. } => {
            assert_eq!(backup.as_deref(), Some("/h/.zshrc.novaenv.bak"));
            assert!(content.starts_with("alias a=b\n"));
        }
        _ => panic!("expected a zshrc write"),
    }
    assert_eq!(ps_escape("a'b''c"), "a''b''''c");
}

#[test]
fn upsert_is_idempotent() {
    let lines = shell_lines(&version(RuntimeKind::Java, "/j"));
    let once = upsert_managed_block("alias ll='ls -l'\n", &lines, RuntimeKind::Java).unwrap();
    let twice = upsert_managed_block(&once, &lines, RuntimeKind::Java).unwrap();
    assert_eq!(once, twice);
    let with_tail = "a\n# >>> NovaEnv managed >>>\nexport JAVA_HOME=\"/j\"\nexport PATH=\"$JAVA_HOME/bin:$PATH\"\n# <<< NovaEnv managed <<<\nz\n";
    assert_eq!(upsert_managed_block(with_tail, &lines, RuntimeKind::Java).unwrap(), with_tail);
}

#[test]
fn second_switch_keeps_other_runtime() {
    let node = shell_lines(&version(RuntimeKind::Node, "/n"));
    let j1 = shell_lines(&version(RuntimeKind::Java, "/j1"));
    let j2 = shell_lines(&version(RuntimeKind::Java, "/j2"));
    let s1 = upsert_managed_block("x=1\n", &j1, RuntimeKind::Java).unwrap();
    let s2 = upsert_managed_block(&s1, &node, RuntimeKind::Node).unwrap();
    let s3 = upsert_managed_block(&s2, &j2, RuntimeKind::Java).unwrap();
    assert!(s3.starts_with("x=1\n"));
    assert_eq!(parse_active_config(&s3), vec!["/n", "/j2"]);
}

#[test]
fn upsert_is_idempotent_for_unusual_paths() {
    for path in ["", "'/opt/j'", "/x\"y"] {
        let lines = shell_lines(&version(RuntimeKind::Node, path));
        let once = upsert_managed_block("a\n", &lines, RuntimeKind::Node).unwrap();
        assert_eq!(upsert_managed_block(&once, &lines, RuntimeKind::Node).unwrap(), once);
    }
}
