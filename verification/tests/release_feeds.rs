use novaenv::feeds::{go_versions_of, int_list, java_feed_of, java_majors_of, java_semvers_of, node_versions_of};

#[test]
fn java_feature_releases_from_page() {
    let body = r#"{"available_lts_releases":[8,11,17,21],"available_releases":[8,11,17,21,22,23,24],"most_recent_lts":21}"#;
    let (lts, majors) = java_majors_of(body).unwrap();
    assert_eq!(lts, vec![8, 11, 17, 21]);
    assert_eq!(majors, vec![8, 11, 17, 21, 23, 24]);
    assert_eq!(int_list(r#"{"a":[1,"x",2.5,3]}"#, "a"), vec![1, 3]);
    assert_eq!(int_list(r#"{"a":1}"#, "a"), Vec::<i64>::new());
    assert!(java_majors_of("not json").unwrap_err().starts_with("解析版本源失败: "));
}

#[test]
fn java_releases_from_pages() {
    let page = r#"[{"version_data":{"semver":"21.0.12+8.0.LTS"}},{"version_data":{}},{"version_data":{"semver":"21.0.11+9"}}]"#;
    assert_eq!(java_semvers_of(page), vec!["21.0.12+8.0.LTS", "21.0.11+9"]);
    assert!(java_semvers_of("{}").is_empty());
    let v = java_feed_of(&vec![21], &vec![21, 24], &vec![Some(page.to_string()), None]).unwrap();
    assert_eq!(v.len(), 2);
    assert_eq!(v[0].version, "21.0.12");
    assert!(v[0].is_lts);
    assert_eq!(v[1].version, "21.0.11");
    assert_eq!(java_feed_of(&vec![], &vec![24], &vec![None]).unwrap_err(), "Adoptium 未返回可用版本");
}

#[test]
fn node_releases_from_page() {
    let body = r#"[{"version":"v23.1.0","lts":false},{"version":"v22.11.0","lts":"Jod"},{"lts":null},{"version":"v21.0.0","lts":null}]"#;
    let v = node_versions_of(body).unwrap();
    assert_eq!(v.len(), 3);
    assert_eq!(v[0].version, "23.1.0");
    assert!(v[0].is_lts);
    assert_eq!(v[1].version, "22.11.0");
    assert!(v[1].is_lts);
    assert_eq!(v[2].version, "21.0.0");
    assert!(!v[2].is_lts);
    assert_eq!(node_versions_of("{}").unwrap_err(), "nodejs.org 响应格式异常");
    assert_eq!(node_versions_of("[]").unwrap_err(), "nodejs.org 未返回可用版本");
    assert!(node_versions_of("[").unwrap_err().starts_with("解析版本源失败: "));
    let many: Vec<String> = (0..100).map(|i| format!(r#"{{"version":"v{i}.0.0"}}"#)).collect();
    assert_eq!(node_versions_of(&format!("[{}]", many.join(","))).unwrap().len(), 80);
}

#[test]
fn go_releases_from_page() {
    let body = r#"[{"version":"go1.24rc1","stable":false},{"version":"go1.23.4","stable":true},{"stable":true},{"version":"go1.22.10","stable":"yes"}]"#;
    let v = go_versions_of(body).unwrap();
    assert_eq!(v.len(), 1);
    assert_eq!(v[0].version, "1.23.4");
    assert!(!v[0].is_lts);
    assert_eq!(go_versions_of(r#"{"a":1}"#).unwrap_err(), "go.dev 响应格式异常");
    assert_eq!(go_versions_of(r#"[{"version":"go1.24rc1","stable":false}]"#).unwrap_err(), "go.dev 未返回可用版本");
    assert!(go_versions_of("").unwrap_err().starts_with("解析版本源失败: "));
}
