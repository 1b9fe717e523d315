//! Plain HTTP reachability checking: the checker configuration and the
//! test that a response came from an HTTP server at all.
use vstd::prelude::*;
use vstd::string::StringSliceAdditionalSpecFns;
use vstd::utf8::encode_utf8;

use crate::addr::IpAddress;

verus! {

/// The reachability checker configuration.
#[derive(Debug)]
pub struct HttpingChecker {
    pub tries_per_ip: u8,
    pub request_timeout_ms: u64,
    pub request_port: u16,
    pub batch_size: usize,
    pub headers: String,
}

impl HttpingChecker {
    pub fn new(
        tries_per_ip: u8,
        request_timeout_ms: u64,
        request_port: u16,
        batch_size: usize,
        headers: String,
    ) -> (c: HttpingChecker)
        ensures
            c.tries_per_ip == tries_per_ip,
            c.request_timeout_ms == request_timeout_ms,
            c.request_port == request_port,
            c.batch_size == batch_size,
            c.headers == headers,
    {
        HttpingChecker { tries_per_ip, request_timeout_ms, request_port, batch_size, headers }
    }
}

/// The outcome of checking one address: whether an HTTP response came
/// back.
#[derive(Clone, Copy, PartialEq, Eq, Structural, Debug)]
pub struct HttpingResult {
    pub ip: IpAddress,
    pub valid: bool,
}

/// The raw reachability request sent to one address: a fixed HTTP/1.1
/// line with the address as the host, the given browser identity, and
/// any configured extra header text before the final blank line.
pub open spec fn httping_request_text(
    ip: IpAddress,
    user_agent: Seq<char>,
    headers: Seq<char>,
) -> Seq<u8> {
    "GET / HTTP/1.1\r\nAccept: */*\r\nConnection: close\r\nHost: "@.map_values(
        |c: char| c as u8,
    ) + crate::addr::addr_text(ip) + "\r\nUser-Agent: "@.map_values(|c: char| c as u8)
        + encode_utf8(user_agent) + "\r\n"@.map_values(|c: char| c as u8) + encode_utf8(headers)
        + "\r\n\r\n"@.map_values(|c: char| c as u8)
}

/// Formats the raw reachability request for one address.
pub fn httping_request(ip: &IpAddress, user_agent: &str, headers: &str) -> (r: Vec<u8>)
    ensures
        r@ == httping_request_text(*ip, user_agent@, headers@),
{
    let head: &[u8] = "GET / HTTP/1.1\r\nAccept: */*\r\nConnection: close\r\nHost: ".as_bytes();
    let ua_sep: &[u8] = "\r\nUser-Agent: ".as_bytes();
    let line_end: &[u8] = "\r\n".as_bytes();
    let blank: &[u8] = "\r\n\r\n".as_bytes();
    proof {
        reveal_strlit("GET / HTTP/1.1\r\nAccept: */*\r\nConnection: close\r\nHost: ");
        assert(vstd::string::is_ascii(
            "GET / HTTP/1.1\r\nAccept: */*\r\nConnection: close\r\nHost: ",
        ));
        vstd::string::is_ascii_spec_bytes(
            "GET / HTTP/1.1\r\nAccept: */*\r\nConnection: close\r\nHost: ",
        );
        assert(head@ =~= "GET / HTTP/1.1\r\nAccept: */*\r\nConnection: close\r\nHost: "@.map_values(
            |c: char| c as u8,
        ));
        reveal_strlit("\r\nUser-Agent: ");
        assert(vstd::string::is_ascii("\r\nUser-Agent: "));
        vstd::string::is_ascii_spec_bytes("\r\nUser-Agent: ");
        assert(ua_sep@ =~= "\r\nUser-Agent: "@.map_values(|c: char| c as u8));
        reveal_strlit("\r\n");
        assert(vstd::string::is_ascii("\r\n"));
        vstd::string::is_ascii_spec_bytes("\r\n");
        assert(line_end@ =~= "\r\n"@.map_values(|c: char| c as u8));
        reveal_strlit("\r\n\r\n");
        assert(vstd::string::is_ascii("\r\n\r\n"));
        vstd::string::is_ascii_spec_bytes("\r\n\r\n");
        assert(blank@ =~= "\r\n\r\n"@.map_values(|c: char| c as u8));
    }
    let mut out: Vec<u8> = Vec::new();
    crate::csv::append_slice(&mut out, head);
    let ab: Vec<u8> = ip.text_bytes();
    crate::csv::append_slice(&mut out, ab.as_slice());
    crate::csv::append_slice(&mut out, ua_sep);
    crate::csv::append_slice(&mut out, user_agent.as_bytes());
    crate::csv::append_slice(&mut out, line_end);
    crate::csv::append_slice(&mut out, headers.as_bytes());
    crate::csv::append_slice(&mut out, blank);
    proof {
        assert(out@ =~= httping_request_text(*ip, user_agent@, headers@));
    }
    out
}

/// A response is taken as valid exactly when it starts with the HTTP/1
/// status-line prefix.
pub open spec fn valid_response(buf: Seq<u8>) -> bool {
    buf.len() >= 7 && buf.take(7) == "HTTP/1."@.map_values(|c: char| c as u8)
}

/// Tests whether a raw response begins with the HTTP/1 status-line
/// prefix.
pub fn is_valid_http_response(buf: &[u8]) -> (r: bool)
    ensures
        r == valid_response(buf@),
{
    let prefix: &[u8] = "HTTP/1.".as_bytes();
    proof {
        reveal_strlit("HTTP/1.");
        assert(vstd::string::is_ascii("HTTP/1."));
        vstd::string::is_ascii_spec_bytes("HTTP/1.");
        assert(prefix@ =~= "HTTP/1."@.map_values(|c: char| c as u8));
        assert(prefix@.len() == 7);
    }
    crate::text::starts_with_bytes(buf, prefix)
}

} // verus!
