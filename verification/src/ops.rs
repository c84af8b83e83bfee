//! Answers of the operational HTTP endpoint: metrics, liveness and readiness.

use crate::text::{decimal, decimal_string, string_bytes};
use vstd::prelude::*;
use vstd::utf8::encode_utf8;

verus! {

/// The port of the operational endpoint when none is configured.
pub const DEFAULT_METRICS_PORT: u16 = 9080;

/// Whitespace as a request line is split on.
pub open spec fn is_space(b: u8) -> bool {
    b == 32 || (9 <= b && b <= 13)
}

/// The index of the first byte at or after `i` that is (`want`) or is not
/// (`!want`) whitespace, or the length.
pub open spec fn skip_to(r: Seq<u8>, i: int, want: bool) -> int
    decreases r.len() - i,
{
    if i >= r.len() || i < 0 {
        r.len() as int
    } else if is_space(r[i]) == want {
        i
    } else {
        skip_to(r, i + 1, want)
    }
}

/// The second whitespace-separated word of a request: the path of a request line.
pub open spec fn request_path(r: Seq<u8>) -> Seq<u8> {
    let w1 = skip_to(r, 0, false);
    let e1 = skip_to(r, w1, true);
    let w2 = skip_to(r, e1, false);
    let e2 = skip_to(r, w2, true);
    r.subrange(w2, e2)
}

proof fn lemma_skip_to_bounds(r: Seq<u8>, i: int, want: bool)
    requires
        0 <= i <= r.len(),
    ensures
        i <= skip_to(r, i, want) <= r.len(),
    decreases r.len() - i,
{
    if i < r.len() && is_space(r[i]) != want {
        lemma_skip_to_bounds(r, i + 1, want);
    }
}

fn skip(r: &[u8], i: usize, want: bool) -> (j: usize)
    requires
        i <= r@.len(),
    ensures
        j == skip_to(r@, i as int, want),
        i <= j <= r@.len(),
{
    let mut j = i;
    proof {
        lemma_skip_to_bounds(r@, i as int, want);
    }
    while j < r.len() && ((r[j] == 32 || (9 <= r[j] && r[j] <= 13)) != want)
        invariant
            i <= j <= r@.len(),
            skip_to(r@, i as int, want) == skip_to(r@, j as int, want),
        decreases r@.len() - j,
    {
        j = j + 1;
    }
    j
}

/// The path of a request (see `request_path`).
pub fn path_of_request(request: &[u8]) -> (p: Vec<u8>)
    ensures
        p@ == request_path(request@),
{
    let w1 = skip(request, 0, false);
    let e1 = skip(request, w1, true);
    let w2 = skip(request, e1, false);
    let e2 = skip(request, w2, true);
    crate::wire::copy_range(request, w2, e2)
}

/// An HTTP response that closes the connection.
pub open spec fn http_response(status: Seq<char>, content_type: Seq<char>, body: Seq<char>) -> Seq<char> {
    "HTTP/1.1 "@ + status + "\r\nContent-Type: "@ + content_type + "\r\nContent-Length: "@ + decimal(
        encode_utf8(body).len(),
    ) + "\r\nConnection: close\r\n\r\n"@ + body
}

/// Builds an HTTP response (see `http_response`).
pub fn format_response(status: &str, content_type: &str, body: &String) -> (s: String)
    ensures
        s@ == http_response(status@, content_type@, body@),
{
    let len = string_bytes(body).len();
    let mut s = "HTTP/1.1 ".to_string();
    s.append(status);
    s.append("\r\nContent-Type: ");
    s.append(content_type);
    s.append("\r\nContent-Length: ");
    let d = decimal_string(len as u64);
    s.append(d.as_str());
    s.append("\r\nConnection: close\r\n\r\n");
    s.append(body.as_str());
    s
}

/// The answer of the operational endpoint to a request for `path`: the metrics
/// text at `/metrics`, `ok` at `/health`, `ready` at `/ready` when the data
/// directory exists (`not ready` with 503 otherwise), and 404 elsewhere.
pub open spec fn ops_answer(path: Seq<u8>, metrics_text: Seq<char>, ready: bool) -> Seq<char> {
    if path == "/metrics"@.map_values(|c: char| c as u8) {
        http_response("200 OK"@, "text/plain; version=0.0.4"@, metrics_text)
    } else if path == "/health"@.map_values(|c: char| c as u8) {
        http_response("200 OK"@, "text/plain"@, "ok"@)
    } else if path == "/ready"@.map_values(|c: char| c as u8) {
        if ready {
            http_response("200 OK"@, "text/plain"@, "ready"@)
        } else {
            http_response("503 Service Unavailable"@, "text/plain"@, "not ready"@)
        }
    } else {
        http_response("404 Not Found"@, "text/plain"@, "not found"@)
    }
}

fn is_path(path: &[u8], lit: &str) -> (r: bool)
    requires
        lit.is_ascii(),
    ensures
        r == (path@ == lit@.map_values(|c: char| c as u8)),
{
    let bytes = lit.as_bytes();
    proof {
        vstd::string::is_ascii_spec_bytes(lit);
    }
    let r = crate::text::bytes_eq(path, bytes);
    assert(bytes@ =~= lit@.map_values(|c: char| c as u8));
    r
}

/// The operational endpoint of a broker whose data lives in `data_dir`.
pub struct OpsServer {
    pub data_dir: String,
}

impl OpsServer {
    pub fn new(data_dir: String) -> (s: OpsServer)
        ensures
            s.data_dir == data_dir,
    {
        OpsServer { data_dir }
    }

    /// Answers a request (see `ops_answer`); `ready` says whether the data
    /// directory exists.
    pub fn respond(&self, request: &[u8], metrics_text: &String, ready: bool) -> (s: String)
        ensures
            s@ == ops_answer(request_path(request@), metrics_text@, ready),
    {
        let path = path_of_request(request);
        proof {
            reveal_strlit("/metrics");
            reveal_strlit("/health");
            reveal_strlit("/ready");
        }
        if is_path(path.as_slice(), "/metrics") {
            format_response("200 OK", "text/plain; version=0.0.4", metrics_text)
        } else if is_path(path.as_slice(), "/health") {
            format_response("200 OK", "text/plain", &"ok".to_string())
        } else if is_path(path.as_slice(), "/ready") {
            if ready {
                format_response("200 OK", "text/plain", &"ready".to_string())
            } else {
                format_response("503 Service Unavailable", "text/plain", &"not ready".to_string())
            }
        } else {
            format_response("404 Not Found", "text/plain", &"not found".to_string())
        }
    }
}

/// The answer of the plain metrics endpoint: the metrics text to a request that
/// starts with `GET /metrics`, else 404.
pub open spec fn metrics_answer(request: Seq<u8>, metrics_text: Seq<char>) -> Seq<char> {
    let prefix = "GET /metrics"@.map_values(|c: char| c as u8);
    if request.len() >= prefix.len() && request.subrange(0, prefix.len() as int) == prefix {
        http_response("200 OK"@, "text/plain; version=0.0.4"@, metrics_text)
    } else {
        http_response("404 Not Found"@, "text/plain; version=0.0.4"@, "not found"@)
    }
}

/// Answers a request to the plain metrics endpoint (see `metrics_answer`).
pub fn metrics_response(request: &[u8], metrics_text: &String) -> (s: String)
    ensures
        s@ == metrics_answer(request@, metrics_text@),
{
    let lit = "GET /metrics";
    proof {
        reveal_strlit("GET /metrics");
        vstd::string::is_ascii_spec_bytes(lit);
    }
    let n = lit.as_bytes().len();
    assert(n == lit@.len());
    let mut found = false;
    if request.len() >= n {
        let head = crate::wire::copy_range(request, 0, n);
        found = is_path(head.as_slice(), lit);
    }
    if found {
        format_response("200 OK", "text/plain; version=0.0.4", metrics_text)
    } else {
        format_response("404 Not Found", "text/plain; version=0.0.4", &"not found".to_string())
    }
}

} // verus!
