use novaenv::activation::Platform;
use novaenv::models::{ServiceConfig, ServiceKind};
use novaenv::services::{list_all, next_attempt, tail_text, Attempt};
use novaenv::services::launchd::{escape_xml, label, plist_content, plist_path};
use novaenv::services::mysql;
use novaenv::services::redis;
use novaenv::services::vision;

#[test]
fn parses_redis_conf() {
    let conf = redis::parse_conf(
        "port 6380\ndaemonize yes\npidfile /x/run/redis.pid\nrequirepass secret123\nsave 900 1\n",
    );
    assert_eq!(conf.port, 6380);
    assert_eq!(conf.password, "secret123");
}

#[test]
fn redis_defaults_when_missing() {
    let conf = redis::parse_conf("daemonize yes\n");
    assert_eq!(conf.port, redis::DEFAULT_PORT);
    assert_eq!(conf.password, "");
}

#[test]
fn ignores_comments_and_invalid_port() {
    let conf = redis::parse_conf("# port 9999\nport not-a-number\n");
    assert_eq!(conf.port, redis::DEFAULT_PORT);
}

#[test]
fn redis_version_comparison() {
    assert!(redis::cmp_versions("8.10.0", "8.8.1").is_gt());
    assert!(redis::cmp_versions("7.4.4", "8.0.1").is_lt());
    assert!(redis::cmp_versions("6.2.17", "6.2.17").is_eq());
}

#[test]
fn parses_version_list_html() {
    let html = "<html><a href=\"redis-8.10.0.tar.gz\">..</a>\n<a href=\"redis-7.4.4.tar.gz\">..</a>\n<a href=\"redis-7.4.4.tar.gz\">dup</a>\n<a href=\"redis-8.0.0-alpha.tar.gz\">..</a>\n<a href=\"redis-6.2.17.tar.gz\">..</a></html>";
    let mut versions = redis::parse_version_html(html);
    versions.sort_by(|a, b| redis::cmp_versions(b, a));
    assert_eq!(versions, vec!["8.10.0", "7.4.4", "6.2.17"]);
}

#[test]
fn redis_kind_meta() {
    assert_eq!(ServiceKind::Redis.display_name(), "Redis");
    assert_eq!(ServiceKind::Redis.default_port(), 6379);
}

#[test]
fn parses_my_cnf() {
    let conf = mysql::parse_conf(
        "[mysqld]\nport=3307\ndatadir=/x/data\nsocket=/x/run/mysql.sock\nlog_error=/x/log\n",
    );
    assert_eq!(conf.port, 3307);
}

#[test]
fn mysql_defaults_when_missing() {
    assert_eq!(mysql::parse_conf("[mysqld]\ndatadir=/x\n").port, mysql::DEFAULT_PORT);
}

#[test]
fn ignores_section_and_comments() {
    assert_eq!(
        mysql::parse_conf("# port=1234\n[client]\nport=9999\n").port,
        mysql::DEFAULT_PORT
    );
}

#[test]
fn mysql_version_comparison() {
    assert!(mysql::cmp_versions("8.4.0", "8.4.0").is_eq());
    assert!(mysql::cmp_versions("8.4.1", "8.4.0").is_gt());
    assert!(mysql::cmp_versions("9.0.1", "8.4.6").is_gt());
}

#[test]
fn mysql_kind_meta() {
    assert_eq!(ServiceKind::MySql.display_name(), "MySQL");
    assert_eq!(ServiceKind::MySql.default_port(), 3306);
}

#[test]
fn redis_offers_fallback_without_page() {
    let v = redis::available_versions(None).unwrap();
    assert_eq!(v.len(), 11);
    assert_eq!(v[0], "8.10.0");
    let v = redis::available_versions(Some("<html>nothing</html>")).unwrap();
    assert_eq!(v[10], "6.0.20");
    let v = redis::available_versions(Some("redis-7.2.1.tar.gz redis-7.10.0.tar.gz")).unwrap();
    assert_eq!(v, vec!["7.10.0", "7.2.1"]);
    assert!(redis::versions_from_page("none").is_err());
}

#[test]
fn redis_groups_by_first_field() {
    let g = redis::available_version_groups(None).unwrap();
    assert_eq!(g.len(), 3);
    assert_eq!(g[0].major, "8");
    assert_eq!(g[0].versions.len(), 6);
    assert_eq!(g[0].latest, "8.10.0");
    assert!(!g[0].is_lts);
    assert_eq!(g[2].versions, vec!["6.2.17", "6.0.20"]);
}

#[test]
fn redis_conf_text_has_password_only_when_set() {
    let c = ServiceConfig { port: 6380, password: "p".to_string(), old_password: String::new() };
    let t = redis::conf_text(&c, "/r.pid", "/d", "/l.log");
    assert_eq!(t, "port 6380\ndaemonize yes\npidfile /r.pid\ndir /d\nlogfile /l.log\nsave 900 1\nsave 300 10\nsave 60 10000\nappendonly yes\nappendfilename appendonly.aof\nrequirepass p\n");
    let c = ServiceConfig { port: 7, password: String::new(), old_password: String::new() };
    assert_eq!(redis::launchd_conf_text(&c, "/r.pid", "/d", "/l.log"), "port 7\ndaemonize no\npidfile /r.pid\ndir /d\nlogfile /l.log\n");
    assert_eq!(redis::parse_conf(&t).port, 6380);
    assert_eq!(redis::parse_conf(&t).password, "p");
}

#[test]
fn redis_update_then_read_back() {
    let current = "port 6379\nrequirepass  old \n";
    let old = redis::parse_conf(current);
    let ask = ServiceConfig { port: 6390, password: String::new(), old_password: String::new() };
    let w = redis::update_config("7.4.4", &ask, true, Some(old), false).unwrap();
    let back = redis::parse_conf(&redis::conf_text(&w, "/r.pid", "/d", "/l.log"));
    assert_eq!((back.port, back.password.as_str()), (6390, "old"));
}

#[test]
fn redis_update_config_rules() {
    let old = ServiceConfig { port: 6379, password: "old".to_string(), old_password: String::new() };
    let ask = ServiceConfig { port: 6380, password: String::new(), old_password: String::new() };
    assert_eq!(redis::update_config("7.4.4", &ask, false, Some(old.clone()), false).unwrap_err(), "Redis 7.4.4 未安装");
    let zero = ServiceConfig { port: 0, password: String::new(), old_password: String::new() };
    assert_eq!(redis::update_config("7.4.4", &zero, true, None, false).unwrap_err(), "端口不能为 0");
    assert_eq!(redis::update_config("7.4.4", &ask, true, Some(old.clone()), true).unwrap_err(), "端口 6380 已被占用，请换一个端口");
    let w = redis::update_config("7.4.4", &ask, true, Some(old.clone()), false).unwrap();
    assert_eq!(w.port, 6380);
    assert_eq!(w.password, "old");
    let same_port = ServiceConfig { port: 6379, password: "new".to_string(), old_password: String::new() };
    let w = redis::update_config("7.4.4", &same_port, true, Some(old), true).unwrap();
    assert_eq!(w.password, "new");
}

#[test]
fn redis_info_shows_newest_version() {
    let inst = |v: &str, port: Option<u16>| redis::RedisInstance {
        version: v.to_string(),
        conf: port.map(|p| ServiceConfig { port: p, password: "pw".to_string(), old_password: String::new() }),
        running: v == "8.10.0",
        pid: None,
        autostart: false,
        data_dir: format!("/d/{v}"),
    };
    let info = redis::info(Platform::MacOs, vec![inst("8.10.0", Some(6400)), inst("7.4.4", None)]);
    assert!(info.installed);
    assert_eq!(info.version.as_deref(), Some("8.10.0"));
    assert_eq!(info.port, 6400);
    assert!(info.running);
    assert_eq!(info.versions.len(), 2);
    assert_eq!(info.versions[0].version, "7.4.4");
    assert_eq!(info.versions[0].port, 6379);
    let none = redis::info(Platform::MacOs, vec![]);
    assert!(!none.installed);
    assert_eq!(none.port, 6379);
    let win = redis::info(Platform::Windows, vec![inst("8.10.0", None)]);
    assert!(!win.installed);
    assert!(win.note.is_some());
}

#[test]
fn mysql_groups_and_downloads() {
    let g = mysql::available_version_groups().unwrap();
    assert_eq!(g.len(), 2);
    assert_eq!(g[0].major, "9");
    assert!(!g[0].is_lts);
    assert_eq!(g[0].versions, vec!["9.0.1"]);
    assert_eq!(g[1].major, "8");
    assert!(g[1].is_lts);
    assert_eq!(g[1].latest, "8.4.0");
    assert_eq!(
        mysql::resolve_download_url("8.4.0", &vec![]).unwrap(),
        "https://cdn.mysql.com/Downloads/MySQL-8.4/mysql-8.4.0-macos14-arm64.tar.gz"
    );
    assert_eq!(
        mysql::resolve_download_url("8.4.5", &vec![false, true]).unwrap(),
        "https://cdn.mysql.com/Downloads/MySQL-8.4/mysql-8.4.5-macos14-arm64.tar.gz"
    );
    assert_eq!(
        mysql::resolve_download_url("8.4.5", &vec![false, false, false, false]).unwrap_err(),
        "未找到 MySQL 8.4.5 的 macOS arm64 官方包（探测失败）"
    );
    assert_eq!(mysql::latest_installed(&vec!["9.0.1".to_string(), "8.4.0".to_string()]), Some("9.0.1".to_string()));
    assert_eq!(mysql::latest_installed(&vec![]), None);
}

#[test]
fn mysql_update_plan() {
    let old = ServiceConfig { port: 3306, password: String::new(), old_password: String::new() };
    let ask = ServiceConfig { port: 3307, password: "it's".to_string(), old_password: String::new() };
    let u = mysql::update_config("8.4.0", &ask, true, Some(old.clone()), false, false).unwrap();
    assert!(u.restart);
    assert_eq!(u.alter.as_deref(), Some("ALTER USER 'root'@'localhost' IDENTIFIED BY 'it''s';"));
    let e = mysql::update_config("8.4.0", &ask, true, Some(old.clone()), true, false).unwrap_err();
    assert!(e.starts_with("端口 3307 已被其他进程占用"));
    let same = ServiceConfig { port: 3306, password: String::new(), old_password: String::new() };
    let u = mysql::update_config("8.4.0", &same, true, Some(old), true, false).unwrap();
    assert!(!u.restart);
    assert!(u.alter.is_none());
    assert_eq!(mysql::conf_text(3306, "/d", "/s.sock", "/l", "/p"), "[mysqld]\nport=3306\ndatadir=/d\nsocket=/s.sock\nlog_error=/l\npid-file=/p\n");
    assert_eq!(mysql::shutdown_args("/s", "pw"), vec!["-u", "root", "--socket=/s", "-ppw", "shutdown"]);
    assert_eq!(mysql::shutdown_args("/s", ""), vec!["-u", "root", "--socket=/s", "shutdown"]);
}

#[test]
fn tails_logs() {
    assert_eq!(tail_text("line 7\nline 8\nline 9", false, 100), "line 7\nline 8\nline 9");
    assert_eq!(tail_text("a\nb\nc\nd", false, 2), "c\nd");
    assert_eq!(tail_text("a\nb", false, 0), "b");
    assert_eq!(tail_text("cut\nx\ny\n", true, 5), "…（日志较长，仅显示末尾 2 行）\nx\ny");
    assert_eq!(tail_text("only", true, 3), "…（日志较长，仅显示末尾 1 行）\nonly");
    assert_eq!(redis::tail_log("1\n2\n3", false, 1), "3");
}

#[test]
fn lists_both_services() {
    let r = redis::info(Platform::Linux, vec![]);
    let m = mysql::info(Platform::Linux, None);
    let all = list_all(r, m);
    assert_eq!(all.len(), 2);
    assert_eq!(all[0].kind, ServiceKind::Redis);
    assert_eq!(all[1].kind, ServiceKind::MySql);
    assert_eq!(all[1].note.as_deref(), Some("当前平台暂不支持 MySQL（Windows 支持规划中）"));
}

#[test]
fn launchd_agent_text() {
    assert_eq!(label("redis", "7.4.4"), "com.novahub.novaenv.redis-7.4.4");
    assert_eq!(
        plist_path(Some("/Users/x"), "redis", "7.4.4"),
        "/Users/x/Library/LaunchAgents/com.novahub.novaenv.redis-7.4.4.plist"
    );
    assert_eq!(plist_path(None, "mysql", "8.4.0"), "Library/LaunchAgents/com.novahub.novaenv.mysql-8.4.0.plist");
    assert_eq!(escape_xml("a&b<c>\"d"), "a&amp;b&lt;c&gt;&quot;d");
    let p = plist_content("redis", "7.4.4", &vec!["/bin/redis-server".to_string(), "a&b".to_string()], "/logs");
    assert!(p.contains("    <string>com.novahub.novaenv.redis-7.4.4</string>\n"));
    assert!(p.contains("    <array>\n    <string>/bin/redis-server</string>\n    <string>a&amp;b</string>\n    </array>\n"));
    assert!(p.contains("<string>/logs/redis-7.4.4.launchd.out</string>"));
    assert!(p.ends_with("</dict>\n</plist>\n"));
}

#[test]
fn vision_checks() {
    assert!(vision::version_ok("Python 3.12.1\n"));
    assert!(vision::version_ok("Python 4.0"));
    assert!(!vision::version_ok("Python 3.9.6"));
    assert!(!vision::version_ok("python"));
    assert!(!vision::accepts_python(None));
    assert_eq!(vision::python_path("/usr/bin/python3", Some("x")), "/usr/bin/python3");
    assert_eq!(vision::python_path("python3", Some(" /opt/p3\n")), "/opt/p3");
    assert_eq!(vision::python_path("python3", Some("  ")), "python3");
    assert_eq!(vision::python_candidates().len(), 13);
    let found = vec![
        ("3.11.2".to_string(), "/a".to_string()),
        ("3.13.0".to_string(), "/b".to_string()),
        ("3.13".to_string(), "/c".to_string()),
    ];
    assert_eq!(vision::novaenv_python(&found), Some("/b".to_string()));
    assert_eq!(vision::api_key(Some("  k ".to_string())), Ok("k".to_string()));
    assert!(vision::api_key(Some(" ".to_string())).is_err());
    let i = vision::info(Some(12), false, "/l".to_string(), None, true);
    assert!(!i.running);
    assert_eq!(i.pid, None);
    let i = vision::info(Some(12), true, "/l".to_string(), None, true);
    assert_eq!(i.pid, Some(12));
    assert_eq!(vision::logs("a\nb", false), Ok("a\nb".to_string()));
}

#[test]
fn redis_conf_reads_back() {
    for (port, password) in [(6380u16, "secret 123"), (1, ""), (65535, "p@ss'word")] {
        let config = ServiceConfig { port, password: password.to_string(), old_password: String::new() };
        let text = redis::conf_text(&config, "/x/run/redis-7.4.4.pid", "/x/data/redis/7.4.4", "/x/logs/redis.log");
        let back = redis::parse_conf(&text);
        assert_eq!(back.port, port);
        assert_eq!(back.password, password);
    }
}

#[test]
fn mysql_cnf_reads_back() {
    for port in [3307u16, 1, 65535] {
        let text = mysql::conf_text(port, "/x/data", "/x/run/mysql.sock", "/x/logs/mysql.log", "/x/run/mysql.pid");
        assert_eq!(mysql::parse_conf(&text).port, port);
    }
}

#[test]
fn service_layout() {
    let p = novaenv::services::service_paths(Platform::MacOs, "/Users/x/.novaenv", "redis", "7.4.4");
    assert_eq!(p.dir, "/Users/x/.novaenv/services/redis/7.4.4");
    assert_eq!(p.data_dir, "/Users/x/.novaenv/data/redis/7.4.4");
    assert_eq!(p.log_file, "/Users/x/.novaenv/logs/redis-7.4.4.log");
    assert_eq!(p.pid_file, "/Users/x/.novaenv/run/redis-7.4.4.pid");
    assert_eq!(p.socket, "/Users/x/.novaenv/run/redis-7.4.4.sock");
    assert_eq!(redis::log_path("/Users/x/.novaenv/logs", "7.4.4"), p.log_file);
    assert_eq!(
        novaenv::services::standard_dirs(Platform::MacOs, "/h/.novaenv"),
        vec!["/h/.novaenv/installs", "/h/.novaenv/services", "/h/.novaenv/data", "/h/.novaenv/logs", "/h/.novaenv/run"]
    );
}

#[test]
fn redis_build_rules() {
    assert_eq!(
        redis::source_urls("7.4.4"),
        vec![
            "https://download.redis.io/releases/redis-7.4.4.tar.gz",
            "https://github.com/redis/redis/archive/refs/tags/7.4.4.tar.gz",
        ]
    );
    assert_eq!(redis::programs(), vec!["redis-server", "redis-cli", "redis-check-aof", "redis-check-rdb"]);
    assert_eq!(
        redis::build_args(Some(12)),
        vec!["-j", "8", "redis-server", "redis-cli", "redis-check-aof", "redis-check-rdb"]
    );
    assert_eq!(redis::build_args(None)[1], "4");
    assert_eq!(redis::build_args(Some(2))[1], "2");
}

#[test]
fn mysql_client_arguments() {
    assert_eq!(mysql::init_args("/d"), vec!["--initialize-insecure", "--datadir=/d"]);
    assert_eq!(
        mysql::launchd_args("/m/bin/mysqld", "/m/my.cnf"),
        vec!["/m/bin/mysqld", "--defaults-file=/m/my.cnf"]
    );
    assert_eq!(
        mysql::client_args("/s.sock", None, "SELECT 1;"),
        vec!["-u", "root", "--skip-password", "--socket=/s.sock", "-e", "SELECT 1;"]
    );
    assert_eq!(
        mysql::client_args("/s.sock", Some("old"), "SELECT 1;"),
        vec!["-u", "root", "--socket=/s.sock", "-pold", "-e", "SELECT 1;"]
    );
    assert_eq!(mysql::client_args("/s.sock", Some(""), "X").len(), 5);
}

#[test]
fn vision_dependency_install() {
    let idx = vision::pip_indexes();
    assert_eq!(idx.len(), 4);
    assert_eq!(idx[0].as_deref(), Some("https://mirrors.aliyun.com/pypi/simple"));
    assert_eq!(idx[3], None);
    assert_eq!(
        vision::pip_args(Some("https://m"), "/v/requirements.txt"),
        vec!["-m", "pip", "install", "-q", "-i", "https://m", "-r", "/v/requirements.txt"]
    );
    assert_eq!(vision::pip_args(None, "r.txt"), vec!["-m", "pip", "install", "-q", "-r", "r.txt"]);
    let err = "a\nb\nc\nd\ne\nf\ng\nh\n";
    assert_eq!(vision::pip_failure(err), "h | g | f | e | d | c");
    assert_eq!(vision::pip_failure("only"), "only");
    assert_eq!(vision::pip_failure(""), "");
    assert_eq!(
        vision::deps_error("x"),
        "安装依赖失败（fastmcp/openai/Pillow）：x\n（已尝试阿里云/腾讯云/清华/官方源，详情见日志）"
    );
}

#[test]
fn launchd_targets() {
    assert_eq!(novaenv::services::launchd::domain(501), "gui/501");
    assert_eq!(
        novaenv::services::launchd::target(502, "redis", "7.4.4"),
        "gui/502/com.novahub.novaenv.redis-7.4.4"
    );
}

#[test]
fn tails_last_lines_of_text() {
    let lines: Vec<String> = (0..10).map(|i| format!("line {i}")).collect();
    let content = lines.join("\n");
    assert_eq!(tail_text(&content, false, 3), "line 7\nline 8\nline 9");
    assert_eq!(tail_text(&content, false, 100).lines().count(), 10);
}

#[test]
fn large_text_tails_from_end() {
    let line = "0123456789".repeat(3);
    let content: String = (0..20_000).map(|i| format!("{i} {line}")).collect::<Vec<_>>().join("\n");
    let max = novaenv::services::MAX_TAIL_BYTES as usize;
    assert!(content.len() > max);
    let start = content.len() - max;
    let tail = tail_text(&content[start..], true, 3);
    assert!(tail.starts_with("…（日志较长"), "{tail}");
    assert!(tail.contains(&format!("19997 {line}")));
    assert!(tail.contains(&format!("19999 {line}")));
    assert!(!tail.contains("line 0"));
}

#[test]
fn sources_are_tried_in_order() {
    assert_eq!(next_attempt(2, 0, true), Attempt::Done);
    assert_eq!(next_attempt(2, 0, false), Attempt::Next(1));
    assert_eq!(next_attempt(2, 1, false), Attempt::Exhausted);
    assert_eq!(next_attempt(1, 0, false), Attempt::Exhausted);
    assert_eq!(next_attempt(3, 1, true), Attempt::Done);
}
