use pux::error::{failure_status, PuxError, STATUS_INTERNAL_ERROR, STATUS_NOT_FOUND};
use pux::handler::{lookup_service, render_error_page, status_code_bytes};
use pux::routes::Routes;

fn b(s: &str) -> Vec<u8> {
    s.as_bytes().to_vec()
}

fn segs(parts: &[&str]) -> Vec<Vec<u8>> {
    parts.iter().map(|p| p.as_bytes().to_vec()).collect()
}

#[test]
fn status_code_digits() {
    assert_eq!(status_code_bytes(404), b("404"));
    assert_eq!(status_code_bytes(500), b("500"));
    assert_eq!(status_code_bytes(503), b("503"));
    assert_eq!(status_code_bytes(100), b("100"));
    assert_eq!(status_code_bytes(999), b("999"));
}

#[test]
fn failure_status_keeps_status_coded_errors() {
    assert_eq!(failure_status(&PuxError::Status(503)), 503);
    assert_eq!(failure_status(&PuxError::Status(404)), STATUS_NOT_FOUND);
}

#[test]
fn failure_status_maps_other_errors_to_internal() {
    assert_eq!(failure_status(&PuxError::Io), STATUS_INTERNAL_ERROR);
    assert_eq!(failure_status(&PuxError::Http), STATUS_INTERNAL_ERROR);
    assert_eq!(failure_status(&PuxError::Hyper), STATUS_INTERNAL_ERROR);
}

#[test]
fn error_page_substitutes_all_placeholders() {
    let template = b(
        "<h1>{{CODE}} {{REASON}}</h1><p>{{PEER_ADDR}} asked {{HOST}}; took {{ELAPSED}}</p>",
    );
    let page = render_error_page(
        &template,
        404,
        &b("Not Found"),
        &b("127.0.0.1"),
        &b("missing.example"),
        &b("1ms"),
    );
    assert_eq!(
        page,
        b("<h1>404 Not Found</h1><p>127.0.0.1 asked missing.example; took 1ms</p>")
    );
}

#[test]
fn error_page_body_contains_the_code() {
    let template = b("error {{CODE}}");
    let page = render_error_page(&template, 404, &b(""), &b(""), &b(""), &b(""));
    assert_eq!(page, b("error 404"));
}

#[test]
fn error_page_without_placeholders_is_unchanged() {
    let template = b("static page");
    let page = render_error_page(&template, 500, &b("x"), &b("y"), &b("z"), &b("w"));
    assert_eq!(page, b("static page"));
}

#[test]
fn lookup_requires_a_host_header() {
    let routes = Routes::new();
    assert_eq!(lookup_service(&routes, &None, &b("/")), None);
}

#[test]
fn lookup_misses_unrouted_host() {
    let mut routes = Routes::new();
    routes.insert(b("example.com"), segs(&[]), 1);
    assert_eq!(
        lookup_service(&routes, &Some(b("missing.example")), &b("/")),
        None
    );
}

#[test]
fn lookup_strips_the_port_before_matching() {
    let mut routes = Routes::new();
    routes.insert(b("example.com"), segs(&[]), 1);
    assert_eq!(
        lookup_service(&routes, &Some(b("example.com:8443")), &b("/x")),
        Some(1)
    );
}

#[test]
fn lookup_splits_the_path_into_segments() {
    let mut routes = Routes::new();
    routes.insert(b("ex.com"), segs(&["", "api"]), 1);
    routes.insert(b("ex.com"), segs(&["", "api", "v1"]), 2);
    assert_eq!(
        lookup_service(&routes, &Some(b("ex.com")), &b("/api/v1/foo")),
        Some(1)
    );
    assert_eq!(lookup_service(&routes, &Some(b("ex.com")), &b("/other")), None);
}
