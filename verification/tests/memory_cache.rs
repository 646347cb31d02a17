use novaenv::cache::VersionCache;
use novaenv::models::{AvailableVersionGroup, RuntimeKind};

fn group(major: &str) -> AvailableVersionGroup {
    AvailableVersionGroup {
        major: major.to_string(),
        is_lts: false,
        versions: vec![format!("{major}.0.1")],
        latest: format!("{major}.0.1"),
    }
}

#[test]
fn serves_stored_lists_for_five_minutes() {
    let mut c = VersionCache::new();
    assert!(c.lookup(RuntimeKind::Node, 0, false).is_none());
    c.store(RuntimeKind::Node, 1_000, vec![group("22")]);
    assert_eq!(c.lookup(RuntimeKind::Node, 300_999, false).unwrap()[0].major, "22");
    assert!(c.lookup(RuntimeKind::Node, 301_000, false).is_none());
    assert!(c.lookup(RuntimeKind::Node, 2_000, true).is_none());
    assert!(c.lookup(RuntimeKind::Go, 2_000, false).is_none());
    c.store(RuntimeKind::Go, 5_000, vec![group("1.24")]);
    c.store(RuntimeKind::Node, 6_000, vec![group("24")]);
    assert_eq!(c.lookup(RuntimeKind::Node, 7_000, false).unwrap()[0].major, "24");
    assert_eq!(c.lookup(RuntimeKind::Go, 7_000, false).unwrap()[0].major, "1.24");
}
