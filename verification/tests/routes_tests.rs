use pux::routes::{starts_with, Routes};

fn b(s: &str) -> Vec<u8> {
    s.as_bytes().to_vec()
}

fn segs(parts: &[&str]) -> Vec<Vec<u8>> {
    parts.iter().map(|p| p.as_bytes().to_vec()).collect()
}

#[test]
fn empty_table_finds_nothing() {
    let routes = Routes::new();
    assert_eq!(routes.find(&b("example.com"), &segs(&["", "x"])), None);
}

#[test]
fn unmatched_host_finds_nothing() {
    let mut routes = Routes::new();
    routes.insert(b("example.com"), segs(&[]), 1);
    assert_eq!(routes.find(&b("missing.example"), &segs(&["", ""])), None);
}

#[test]
fn empty_path_matches_any_request_path() {
    let mut routes = Routes::new();
    routes.insert(b("example.com"), segs(&[]), 7);
    assert_eq!(routes.find(&b("example.com"), &segs(&["", "x"])), Some(7));
    assert_eq!(routes.find(&b("example.com"), &segs(&[""])), Some(7));
}

#[test]
fn prefix_must_match_segment_by_segment() {
    let mut routes = Routes::new();
    routes.insert(b("ex.com"), segs(&["", "api"]), 1);
    assert_eq!(routes.find(&b("ex.com"), &segs(&["", "api", "v1"])), Some(1));
    assert_eq!(routes.find(&b("ex.com"), &segs(&["", "apix"])), None);
    assert_eq!(routes.find(&b("ex.com"), &segs(&[""])), None);
}

#[test]
fn shortest_prefix_wins() {
    let mut routes = Routes::new();
    routes.insert(b("ex.com"), segs(&["", "api"]), 1);
    routes.insert(b("ex.com"), segs(&["", "api", "v1"]), 2);
    assert_eq!(
        routes.find(&b("ex.com"), &segs(&["", "api", "v1", "foo"])),
        Some(1)
    );
}

#[test]
fn shortest_prefix_wins_regardless_of_insert_order() {
    let mut routes = Routes::new();
    routes.insert(b("ex.com"), segs(&["", "api", "v1"]), 2);
    routes.insert(b("ex.com"), segs(&["", "api"]), 1);
    assert_eq!(
        routes.find(&b("ex.com"), &segs(&["", "api", "v1", "foo"])),
        Some(1)
    );
}

#[test]
fn longer_route_reachable_when_short_does_not_match() {
    let mut routes = Routes::new();
    routes.insert(b("ex.com"), segs(&["", "admin"]), 1);
    routes.insert(b("ex.com"), segs(&["", "api", "v1"]), 2);
    assert_eq!(
        routes.find(&b("ex.com"), &segs(&["", "api", "v1", "foo"])),
        Some(2)
    );
}

#[test]
fn hosts_are_independent() {
    let mut routes = Routes::new();
    routes.insert(b("a.com"), segs(&[]), 1);
    routes.insert(b("b.com"), segs(&[]), 2);
    assert_eq!(routes.find(&b("a.com"), &segs(&[""])), Some(1));
    assert_eq!(routes.find(&b("b.com"), &segs(&[""])), Some(2));
}

#[test]
fn host_match_is_case_sensitive_exact() {
    let mut routes = Routes::new();
    routes.insert(b("Example.com"), segs(&[]), 1);
    assert_eq!(routes.find(&b("example.com"), &segs(&[""])), None);
    assert_eq!(routes.find(&b("Example.com"), &segs(&[""])), Some(1));
}

#[test]
fn starts_with_length_and_segments() {
    assert!(starts_with(&segs(&[]), &segs(&["", "x"])));
    assert!(starts_with(&segs(&["", "a"]), &segs(&["", "a"])));
    assert!(starts_with(&segs(&["", "a"]), &segs(&["", "a", "b"])));
    assert!(!starts_with(&segs(&["", "a", "b"]), &segs(&["", "a"])));
    assert!(!starts_with(&segs(&["", "b"]), &segs(&["", "a", "b"])));
}
