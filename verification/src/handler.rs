//! Request-handler decisions: derive the routing key from the `Host`
//! header, split the request path into segments, look the service up,
//! and render the HTML error page by placeholder substitution.

use vstd::prelude::*;
use crate::routes::Routes;
use crate::text::{host_key, split_at, strip_port, split_bytes, replace, replace_all, SLASH};

verus! {

/// `{{CODE}}`.
pub open spec fn code_placeholder() -> Seq<u8> {
    seq![123u8, 123u8, 67u8, 79u8, 68u8, 69u8, 125u8, 125u8]
}

/// `{{REASON}}`.
pub open spec fn reason_placeholder() -> Seq<u8> {
    seq![123u8, 123u8, 82u8, 69u8, 65u8, 83u8, 79u8, 78u8, 125u8, 125u8]
}

/// `{{PEER_ADDR}}`.
pub open spec fn peer_placeholder() -> Seq<u8> {
    seq![123u8, 123u8, 80u8, 69u8, 69u8, 82u8, 95u8, 65u8, 68u8, 68u8, 82u8, 125u8, 125u8]
}

/// `{{HOST}}`.
pub open spec fn host_placeholder() -> Seq<u8> {
    seq![123u8, 123u8, 72u8, 79u8, 83u8, 84u8, 125u8, 125u8]
}

/// `{{ELAPSED}}`.
pub open spec fn elapsed_placeholder() -> Seq<u8> {
    seq![123u8, 123u8, 69u8, 76u8, 65u8, 80u8, 83u8, 69u8, 68u8, 125u8, 125u8]
}

/// The three decimal digits of a status code.
pub open spec fn dec3(code: u16) -> Seq<u8> {
    seq![(48 + code / 100) as u8, (48 + (code / 10) % 10) as u8, (48 + code % 10) as u8]
}

/// The ASCII digits of a three-digit status code.
pub fn status_code_bytes(code: u16) -> (r: Vec<u8>)
    requires
        100 <= code <= 999,
    ensures
        r@ == dec3(code),
        r@.len() == 3,
{
    let mut r: Vec<u8> = Vec::new();
    r.push(48 + (code / 100) as u8);
    r.push(48 + ((code / 10) % 10) as u8);
    r.push(48 + (code % 10) as u8);
    proof {
        assert(r@ =~= dec3(code));
    }
    r
}

fn code_pattern() -> (r: Vec<u8>)
    ensures
        r@ == code_placeholder(),
{
    let mut r: Vec<u8> = Vec::new();
    r.push(123);
    r.push(123);
    r.push(67);
    r.push(79);
    r.push(68);
    r.push(69);
    r.push(125);
    r.push(125);
    proof {
        assert(r@ =~= code_placeholder());
    }
    r
}

fn reason_pattern() -> (r: Vec<u8>)
    ensures
        r@ == reason_placeholder(),
{
    let mut r: Vec<u8> = Vec::new();
    r.push(123);
    r.push(123);
    r.push(82);
    r.push(69);
    r.push(65);
    r.push(83);
    r.push(79);
    r.push(78);
    r.push(125);
    r.push(125);
    proof {
        assert(r@ =~= reason_placeholder());
    }
    r
}

fn peer_pattern() -> (r: Vec<u8>)
    ensures
        r@ == peer_placeholder(),
{
    let mut r: Vec<u8> = Vec::new();
    r.push(123);
    r.push(123);
    r.push(80);
    r.push(69);
    r.push(69);
    r.push(82);
    r.push(95);
    r.push(65);
    r.push(68);
    r.push(68);
    r.push(82);
    r.push(125);
    r.push(125);
    proof {
        assert(r@ =~= peer_placeholder());
    }
    r
}

fn host_pattern() -> (r: Vec<u8>)
    ensures
        r@ == host_placeholder(),
{
    let mut r: Vec<u8> = Vec::new();
    r.push(123);
    r.push(123);
    r.push(72);
    r.push(79);
    r.push(83);
    r.push(84);
    r.push(125);
    r.push(125);
    proof {
        assert(r@ =~= host_placeholder());
    }
    r
}

fn elapsed_pattern() -> (r: Vec<u8>)
    ensures
        r@ == elapsed_placeholder(),
{
    let mut r: Vec<u8> = Vec::new();
    r.push(123);
    r.push(123);
    r.push(69);
    r.push(76);
    r.push(65);
    r.push(80);
    r.push(83);
    r.push(69);
    r.push(68);
    r.push(125);
    r.push(125);
    proof {
        assert(r@ =~= elapsed_placeholder());
    }
    r
}

/// The error page for `template` with the five placeholders replaced:
/// the status digits, the reason phrase, the peer address, the host and
/// the elapsed time, substituted in that order.
pub open spec fn rendered_page(
    template: Seq<u8>,
    code: u16,
    reason: Seq<u8>,
    peer: Seq<u8>,
    host: Seq<u8>,
    elapsed: Seq<u8>,
) -> Seq<u8> {
    replace_all(
        replace_all(
            replace_all(
                replace_all(
                    replace_all(template, code_placeholder(), dec3(code)),
                    reason_placeholder(),
                    reason,
                ),
                peer_placeholder(),
                peer,
            ),
            host_placeholder(),
            host,
        ),
        elapsed_placeholder(),
        elapsed,
    )
}

/// Render the HTML error page: substitute the status code digits, the
/// reason phrase, the peer address, the host and the elapsed time for
/// their placeholders in `template`.
pub fn render_error_page(
    template: &Vec<u8>,
    code: u16,
    reason: &Vec<u8>,
    peer: &Vec<u8>,
    host: &Vec<u8>,
    elapsed: &Vec<u8>,
) -> (r: Vec<u8>)
    requires
        100 <= code <= 999,
    ensures
        r@ == rendered_page(template@, code, reason@, peer@, host@, elapsed@),
{
    let digits = status_code_bytes(code);
    let s1 = replace(template, &code_pattern(), &digits);
    let s2 = replace(&s1, &reason_pattern(), reason);
    let s3 = replace(&s2, &peer_pattern(), peer);
    let s4 = replace(&s3, &host_pattern(), host);
    replace(&s4, &elapsed_pattern(), elapsed)
}

/// Find the service for a request: derive the routing key from the
/// `Host` header by dropping the port, split the raw URI path on `/`,
/// and look the pair up. A missing header finds nothing; otherwise the
/// result is the fewest-segment prefix match, exactly as `Routes::find`
/// states it.
pub fn lookup_service(routes: &Routes, host_header: &Option<Vec<u8>>, raw_path: &Vec<u8>) -> (r:
    Option<u64>)
    requires
        routes.wf(),
    ensures
        host_header is None ==> r is None,
        match *host_header {
            Some(ref h) => match r {
                Some(s) => routes.serves(host_key(h@), split_at(raw_path@, SLASH), s),
                None => routes.no_match(host_key(h@), split_at(raw_path@, SLASH)),
            },
            None => r is None,
        },
{
    match host_header {
        None => None,
        Some(h) => {
            let host = strip_port(h);
            let segments = split_bytes(raw_path, SLASH);
            routes.find(&host, &segments)
        },
    }
}

} // verus!
