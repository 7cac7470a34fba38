use pux::text::{bytes_eq, copy_bytes, replace, split_bytes, strip_port, to_lowercase, SLASH};

fn b(s: &str) -> Vec<u8> {
    s.as_bytes().to_vec()
}

#[test]
fn strip_port_drops_port() {
    assert_eq!(strip_port(&b("example.com:8080")), b("example.com"));
}

#[test]
fn strip_port_without_colon_is_identity() {
    assert_eq!(strip_port(&b("example.com")), b("example.com"));
}

#[test]
fn strip_port_drops_only_last_segment() {
    assert_eq!(strip_port(&b("a:b:c")), b("a:b"));
}

#[test]
fn strip_port_bracketed_ipv6() {
    assert_eq!(strip_port(&b("[::1]:8080")), b("[::1]"));
}

#[test]
fn strip_port_empty() {
    assert_eq!(strip_port(&b("")), b(""));
}

#[test]
fn strip_port_stable_across_identical_inputs() {
    let h = b("Example.com:443");
    assert_eq!(strip_port(&h), strip_port(&copy_bytes(&h)));
}

#[test]
fn split_path_preserves_leading_empty_segment() {
    assert_eq!(
        split_bytes(&b("/api/v1"), SLASH),
        vec![b(""), b("api"), b("v1")]
    );
}

#[test]
fn split_empty_is_one_empty_segment() {
    assert_eq!(split_bytes(&b(""), SLASH), vec![b("")]);
}

#[test]
fn split_single_slash() {
    assert_eq!(split_bytes(&b("/"), SLASH), vec![b(""), b("")]);
}

#[test]
fn split_trailing_slash() {
    assert_eq!(split_bytes(&b("/a/"), SLASH), vec![b(""), b("a"), b("")]);
}

#[test]
fn split_no_separator() {
    assert_eq!(split_bytes(&b("abc"), SLASH), vec![b("abc")]);
}

#[test]
fn lowercase_maps_ascii_letters_only() {
    assert_eq!(to_lowercase(&b("ExAmPLE.com-09_Z")), b("example.com-09_z"));
}

#[test]
fn bytes_eq_exact() {
    assert!(bytes_eq(&b("abc"), &b("abc")));
    assert!(!bytes_eq(&b("abc"), &b("abd")));
    assert!(!bytes_eq(&b("abc"), &b("abcd")));
    assert!(!bytes_eq(&b("Abc"), &b("abc")));
}

#[test]
fn replace_single_occurrence() {
    assert_eq!(replace(&b("x{{K}}y"), &b("{{K}}"), &b("v")), b("xvy"));
}

#[test]
fn replace_all_occurrences_left_to_right() {
    assert_eq!(replace(&b("a..b..c"), &b(".."), &b("-")), b("a-b-c"));
}

#[test]
fn replace_no_overlap() {
    assert_eq!(replace(&b("aaa"), &b("aa"), &b("b")), b("ba"));
}

#[test]
fn replace_missing_pattern_is_identity() {
    assert_eq!(replace(&b("hello"), &b("xyz"), &b("v")), b("hello"));
}

#[test]
fn replace_empty_pattern_is_identity() {
    assert_eq!(replace(&b("hello"), &b(""), &b("v")), b("hello"));
}

#[test]
fn replace_with_longer_replacement() {
    assert_eq!(replace(&b("a%b"), &b("%"), &b("<=>")), b("a<=>b"));
}
