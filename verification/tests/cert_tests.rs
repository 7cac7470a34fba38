use pux::cert::CertStore;

fn b(s: &str) -> Vec<u8> {
    s.as_bytes().to_vec()
}

#[test]
fn resolve_known_server_name() {
    let mut store = CertStore::new(b("fallback.example"));
    store.insert(b("example.com"), 1);
    assert_eq!(store.resolve(&Some(b("example.com"))), Some(1));
}

#[test]
fn resolve_is_case_insensitive() {
    let mut store = CertStore::new(b("fallback.example"));
    store.insert(b("ExAmPle.COM"), 1);
    assert_eq!(store.resolve(&Some(b("EXAMPLE.com"))), Some(1));
    assert_eq!(store.resolve(&Some(b("example.com"))), Some(1));
}

#[test]
fn resolve_unknown_server_name_misses() {
    let mut store = CertStore::new(b("fallback.example"));
    store.insert(b("example.com"), 1);
    assert_eq!(store.resolve(&Some(b("other.example"))), None);
}

#[test]
fn resolve_without_sni_uses_fallback_when_stored() {
    let mut store = CertStore::new(b("Fallback.Example"));
    store.insert(b("fallback.example"), 9);
    assert_eq!(store.resolve(&None), Some(9));
}

#[test]
fn resolve_without_sni_misses_when_fallback_not_stored() {
    let mut store = CertStore::new(b("fallback.example"));
    store.insert(b("example.com"), 1);
    assert_eq!(store.resolve(&None), None);
}

#[test]
fn insert_overwrites_and_returns_previous() {
    let mut store = CertStore::new(b("fallback.example"));
    assert_eq!(store.insert(b("example.com"), 1), None);
    assert_eq!(store.insert(b("EXAMPLE.COM"), 2), Some(1));
    assert_eq!(store.resolve(&Some(b("example.com"))), Some(2));
}

#[test]
fn empty_store_resolves_nothing() {
    let store = CertStore::new(b("fallback.example"));
    assert_eq!(store.resolve(&Some(b("example.com"))), None);
    assert_eq!(store.resolve(&None), None);
}
