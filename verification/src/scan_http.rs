//! The HTTP probe of the batch scanner: formatting the raw request,
//! reading response header lines, and the decisions taken on each
//! completed submission.
use vstd::prelude::*;
use vstd::string::StringSliceAdditionalSpecFns;
use vstd::utf8::encode_utf8;

use crate::addr::IpAddress;
use crate::addr::addr_text;
use crate::addr::dec_digits;
use crate::input::HttpScanOptions;
use crate::input::ResponseHttpHeaderRegex;
use crate::ring::EntryStep;
use crate::text::find_byte;
use crate::text::split_crlf;

verus! {

/// The kernel's "operation cancelled" error number, as a completion
/// reports it for an operation cut off by its linked timeout.
pub const ECANCELED_ERRNO: i32 = 125;

/// An ASCII whitespace byte: space, tab, line feed, form feed or
/// carriage return.
pub open spec fn is_ascii_ws(b: u8) -> bool {
    b == 32 || b == 9 || b == 10 || b == 12 || b == 13
}

/// Index of the first byte that is not ASCII whitespace.
pub open spec fn first_non_ws(s: Seq<u8>) -> Option<int>
    decreases s.len(),
{
    if s.len() == 0 {
        None
    } else if !is_ascii_ws(s[0]) {
        Some(0int)
    } else {
        match first_non_ws(s.skip(1)) {
            Some(i) => Some(i + 1),
            None => None,
        }
    }
}

proof fn lemma_first_non_ws(s: Seq<u8>)
    ensures
        match first_non_ws(s) {
            Some(i) => 0 <= i < s.len() && !is_ascii_ws(s[i]) && (forall|j: int|
                0 <= j < i ==> is_ascii_ws(#[trigger] s[j])),
            None => forall|j: int| 0 <= j < s.len() ==> is_ascii_ws(#[trigger] s[j]),
        },
    decreases s.len(),
{
    if s.len() != 0 && is_ascii_ws(s[0]) {
        lemma_first_non_ws(s.skip(1));
        match first_non_ws(s.skip(1)) {
            Some(i) => {
                assert forall|j: int| 0 <= j < i + 1 implies is_ascii_ws(#[trigger] s[j]) by {
                    if j > 0 {
                        assert(s[j] == s.skip(1)[j - 1]);
                    }
                }
            },
            None => {
                assert forall|j: int| 0 <= j < s.len() implies is_ascii_ws(#[trigger] s[j]) by {
                    if j > 0 {
                        assert(s[j] == s.skip(1)[j - 1]);
                    }
                }
            },
        }
    }
}

/// Index of the last byte that is not ASCII whitespace.
pub open spec fn last_non_ws(s: Seq<u8>) -> Option<int>
    decreases s.len(),
{
    if s.len() == 0 {
        None
    } else if !is_ascii_ws(s.last()) {
        Some(s.len() - 1)
    } else {
        last_non_ws(s.drop_last())
    }
}

proof fn lemma_last_non_ws(s: Seq<u8>)
    ensures
        match last_non_ws(s) {
            Some(i) => 0 <= i < s.len() && !is_ascii_ws(s[i]) && (forall|j: int|
                i < j < s.len() ==> is_ascii_ws(#[trigger] s[j])),
            None => forall|j: int| 0 <= j < s.len() ==> is_ascii_ws(#[trigger] s[j]),
        },
    decreases s.len(),
{
    if s.len() != 0 && is_ascii_ws(s.last()) {
        lemma_last_non_ws(s.drop_last());
        match last_non_ws(s.drop_last()) {
            Some(i) => {
                assert forall|j: int| i < j < s.len() implies is_ascii_ws(#[trigger] s[j]) by {
                    if j < s.len() - 1 {
                        assert(s[j] == s.drop_last()[j]);
                    }
                }
            },
            None => {
                assert forall|j: int| 0 <= j < s.len() implies is_ascii_ws(#[trigger] s[j]) by {
                    if j < s.len() - 1 {
                        assert(s[j] == s.drop_last()[j]);
                    }
                }
            },
        }
    }
}

/// The bytes with leading and trailing ASCII whitespace removed.
pub open spec fn trim_spec(s: Seq<u8>) -> Seq<u8> {
    match (first_non_ws(s), last_non_ws(s)) {
        (Some(a), Some(b)) => s.subrange(a, b + 1),
        _ => Seq::empty(),
    }
}

/// Index of the first byte that is not ASCII whitespace, or the length
/// when every byte is.
fn scan_past_leading_ws(bytes: &[u8]) -> (a: usize)
    ensures
        a <= bytes@.len(),
        forall|j: int| 0 <= j < a ==> is_ascii_ws(#[trigger] bytes@[j]),
        a < bytes@.len() ==> !is_ascii_ws(bytes@[a as int]),
{
    let n: usize = bytes.len();
    let mut a: usize = 0;
    while a < n
        invariant
            0 <= a <= n,
            n == bytes@.len(),
            forall|j: int| 0 <= j < a ==> is_ascii_ws(#[trigger] bytes@[j]),
        decreases n - a,
    {
        let b: u8 = bytes[a];
        if !(b == 32 || b == 9 || b == 10 || b == 12 || b == 13) {
            return a;
        }
        a = a + 1;
    }
    a
}

/// One past the last byte that is not ASCII whitespace, scanning back
/// no further than the known non-whitespace byte at `a`.
fn scan_past_trailing_ws(bytes: &[u8], a: usize) -> (b: usize)
    requires
        a < bytes@.len(),
        !is_ascii_ws(bytes@[a as int]),
    ensures
        a < b <= bytes@.len(),
        !is_ascii_ws(bytes@[b - 1]),
        forall|j: int| b <= j < bytes@.len() ==> is_ascii_ws(#[trigger] bytes@[j]),
{
    let n: usize = bytes.len();
    let mut b: usize = n;
    while b > a + 1
        invariant
            0 <= a < b <= n,
            n == bytes@.len(),
            !is_ascii_ws(bytes@[a as int]),
            forall|j: int| b <= j < n ==> is_ascii_ws(#[trigger] bytes@[j]),
        decreases b,
    {
        let c: u8 = bytes[b - 1];
        if !(c == 32 || c == 9 || c == 10 || c == 12 || c == 13) {
            return b;
        }
        b = b - 1;
    }
    b
}

/// The batch scanner's HTTP probe.
pub struct ScanHttp {
    pub opts: HttpScanOptions,
    pub tx_buf_size: Option<usize>,
}

impl ScanHttp {
    pub fn new(opts: HttpScanOptions) -> (c: ScanHttp)
        ensures
            c.opts == opts,
            c.tx_buf_size is None,
    {
        ScanHttp { opts, tx_buf_size: None }
    }

    /// Removes leading and trailing ASCII whitespace.
    pub fn trim_ascii_whitespace(bytes: &[u8]) -> (r: &[u8])
        ensures
            r@ == trim_spec(bytes@),
    {
        let n: usize = bytes.len();
        let a: usize = scan_past_leading_ws(bytes);
        proof {
            lemma_first_non_ws(bytes@);
        }
        if a == n {
            proof {
                if first_non_ws(bytes@) is Some {
                    let i = first_non_ws(bytes@)->Some_0;
                    assert(is_ascii_ws(bytes@[i]));
                }
                assert(trim_spec(bytes@) =~= Seq::<u8>::empty());
            }
            let r: &[u8] = &bytes[0..0];
            proof {
                assert(r@ =~= Seq::<u8>::empty());
            }
            return r;
        }
        proof {
            assert(!is_ascii_ws(bytes@[a as int]));
            assert(first_non_ws(bytes@) == Some(a as int)) by {
                match first_non_ws(bytes@) {
                    Some(i) => {
                        if i < a {
                            assert(is_ascii_ws(bytes@[i]));
                        }
                        if a < i {
                            assert(is_ascii_ws(bytes@[a as int]));
                        }
                    },
                    None => {
                        assert(is_ascii_ws(bytes@[a as int]));
                    },
                }
            }
        }
        let b: usize = scan_past_trailing_ws(bytes, a);
        proof {
            lemma_last_non_ws(bytes@);
            assert(last_non_ws(bytes@) == Some(b - 1)) by {
                match last_non_ws(bytes@) {
                    Some(i) => {
                        if i < b - 1 {
                            assert(is_ascii_ws(bytes@[b - 1]));
                        }
                        if b - 1 < i {
                            assert(is_ascii_ws(bytes@[i]));
                        }
                    },
                    None => {
                        assert(is_ascii_ws(bytes@[b - 1]));
                    },
                }
            }
        }
        let r: &[u8] = &bytes[a..b];
        proof {
            assert(r@ =~= trim_spec(bytes@));
        }
        r
    }

    /// Splits a header line at its first colon and trims both sides;
    /// a line without a colon is no header.
    pub fn parse_header_line(line: &[u8]) -> (r: Option<(Vec<u8>, Vec<u8>)>)
        ensures
            match r {
                Some(kv) => {
                    &&& find_byte(line@, 58) is Some
                    &&& kv.0@ == trim_spec(line@.take(find_byte(line@, 58)->Some_0))
                    &&& kv.1@ == trim_spec(line@.skip(find_byte(line@, 58)->Some_0 + 1))
                },
                None => find_byte(line@, 58) is None,
            },
    {
        let ll: usize = line.len();
        match crate::text::find_byte_in(line, 58) {
            Some(i) => {
                proof {
                    crate::text::lemma_find_byte(line@, 58);
                    assert(i < ll);
                }
                let key_raw: &[u8] = &line[0..i];
                let val_raw: &[u8] = &line[i + 1..ll];
                proof {
                    assert(key_raw@ == line@.take(i as int));
                    assert(val_raw@ == line@.skip(i + 1));
                }
                let key: Vec<u8> = vstd::slice::slice_to_vec(Self::trim_ascii_whitespace(key_raw));
                let val: Vec<u8> = vstd::slice::slice_to_vec(Self::trim_ascii_whitespace(val_raw));
                Some((key, val))
            },
            None => None,
        }
    }
}

/// The text of the raw request: the request line, the configured
/// headers, a Host header built from the target when none is
/// configured, and the final blank line.
pub open spec fn request_text(
    method: Seq<char>,
    path: Seq<char>,
    headers: Seq<(Seq<char>, Seq<char>)>,
    ip: IpAddress,
    port: u16,
) -> Seq<u8> {
    let head = encode_utf8(method) + seq![32u8] + encode_utf8(path) + seq![
        32u8,
        72u8,
        84u8,
        84u8,
        80u8,
        47u8,
        49u8,
        46u8,
        49u8,
        13u8,
        10u8,
    ];
    let hdrs = header_lines(headers);
    let host = if has_host_header(headers) {
        Seq::<u8>::empty()
    } else {
        // "Host: <addr>:<port>\r\n"
        seq![72u8, 111u8, 115u8, 116u8, 58u8, 32u8] + addr_text(ip) + seq![58u8] + dec_digits(
            port as nat,
        ) + seq![13u8, 10u8]
    };
    head + hdrs + host + seq![13u8, 10u8]
}

/// The configured header lines, each "key: value" with its line end.
pub open spec fn header_lines(headers: Seq<(Seq<char>, Seq<char>)>) -> Seq<u8>
    decreases headers.len(),
{
    if headers.len() == 0 {
        Seq::empty()
    } else {
        encode_utf8(headers[0].0) + seq![58u8, 32u8] + encode_utf8(headers[0].1) + seq![13u8, 10u8]
            + header_lines(headers.skip(1))
    }
}

/// Whether a Host header is already configured.
pub open spec fn has_host_header(headers: Seq<(Seq<char>, Seq<char>)>) -> bool {
    exists|i: int| 0 <= i < headers.len() && #[trigger] headers[i].0 == "Host"@
}

/// The configured headers as text pairs.
pub open spec fn header_views(hs: Seq<crate::input::RequestHttpHeader>) -> Seq<
    (Seq<char>, Seq<char>),
> {
    hs.map_values(|h: crate::input::RequestHttpHeader| (h.key@, h.val@))
}

impl ScanHttp {
    /// Formats the raw request sent to one target.
    pub fn format_request(&self, ip: &IpAddress, port: u16) -> (r: Vec<u8>)
        ensures
            r@ == request_text(
                self.opts.method@,
                self.opts.path@,
                header_views(self.opts.headers@),
                *ip,
                port,
            ),
    {
        let mut out: Vec<u8> = Vec::new();
        crate::csv::append_slice(&mut out, self.opts.method.as_str().as_bytes());
        out.push(32);
        crate::csv::append_slice(&mut out, self.opts.path.as_str().as_bytes());
        let tail: &[u8] = "HTTP/1.1\r\n".as_bytes();
        proof {
            reveal_strlit("HTTP/1.1\r\n");
            assert(vstd::string::is_ascii("HTTP/1.1\r\n"));
            vstd::string::is_ascii_spec_bytes("HTTP/1.1\r\n");
            assert(tail@ =~= seq![72u8, 84u8, 84u8, 80u8, 47u8, 49u8, 46u8, 49u8, 13u8, 10u8]);
        }
        out.push(32);
        crate::csv::append_slice(&mut out, tail);
        let ghost head = encode_utf8(self.opts.method@) + seq![32u8] + encode_utf8(
            self.opts.path@,
        ) + seq![32u8, 72u8, 84u8, 84u8, 80u8, 47u8, 49u8, 46u8, 49u8, 13u8, 10u8];
        proof {
            assert(out@ =~= head);
        }
        // the configured headers
        let ghost hviews = header_views(self.opts.headers@);
        let n: usize = self.opts.headers.len();
        let mut i: usize = 0;
        proof {
            assert(hviews.skip(0) =~= hviews);
        }
        while i < n
            invariant
                0 <= i <= n,
                n == self.opts.headers@.len(),
                hviews == header_views(self.opts.headers@),
                hviews.len() == n,
                out@ + header_lines(hviews.skip(i as int)) == head + header_lines(hviews),
            decreases n - i,
        {
            let ghost pre = out@;
            proof {
                assert(hviews.skip(i as int)[0] == hviews[i as int]);
                assert(hviews.skip(i as int).skip(1) =~= hviews.skip(i + 1));
            }
            let hdr: &crate::input::RequestHttpHeader = &self.opts.headers[i];
            crate::csv::append_slice(&mut out, hdr.key.as_str().as_bytes());
            out.push(58);
            out.push(32);
            crate::csv::append_slice(&mut out, hdr.val.as_str().as_bytes());
            out.push(13);
            out.push(10);
            i = i + 1;
            proof {
                assert(hviews[i - 1] == (self.opts.headers@[i - 1].key@, self.opts.headers@[i
                    - 1].val@));
                assert(out@ =~= pre + (encode_utf8(hviews[i - 1].0) + seq![58u8, 32u8]
                    + encode_utf8(hviews[i - 1].1) + seq![13u8, 10u8]));
                assert(out@ + header_lines(hviews.skip(i as int)) =~= pre + header_lines(
                    hviews.skip(i - 1),
                ));
            }
        }
        proof {
            assert(hviews.skip(n as int) =~= Seq::<(Seq<char>, Seq<char>)>::empty());
            assert(header_lines(hviews.skip(n as int)) =~= Seq::<u8>::empty());
            assert(out@ =~= head + header_lines(hviews));
        }
        // a Host header, when none is configured
        let host_word: String = "Host".to_owned();
        let mut has_host: bool = false;
        let mut j: usize = 0;
        while j < n
            invariant
                0 <= j <= n,
                n == self.opts.headers@.len(),
                hviews == header_views(self.opts.headers@),
                hviews.len() == n,
                host_word@ == "Host"@,
                has_host ==> has_host_header(hviews),
                !has_host ==> forall|k: int| 0 <= k < j ==> (#[trigger] hviews[k]).0 != "Host"@,
            decreases n - j,
        {
            if !has_host && self.opts.headers[j].key == host_word {
                proof {
                    assert(hviews[j as int].0 == self.opts.headers@[j as int].key@);
                }
                has_host = true;
            }
            j = j + 1;
        }
        let ghost with_hdrs = out@;
        if !has_host {
            let pre_host: &[u8] = "Host: ".as_bytes();
            proof {
                reveal_strlit("Host: ");
                assert(vstd::string::is_ascii("Host: "));
                vstd::string::is_ascii_spec_bytes("Host: ");
                assert(pre_host@ =~= seq![72u8, 111u8, 115u8, 116u8, 58u8, 32u8]);
            }
            crate::csv::append_slice(&mut out, pre_host);
            let ab: Vec<u8> = ip.text_bytes();
            crate::csv::append_slice(&mut out, ab.as_slice());
            out.push(58);
            let pb: Vec<u8> = crate::addr::dec_bytes_u64(port as u64);
            crate::csv::append_slice(&mut out, pb.as_slice());
            out.push(13);
            out.push(10);
            proof {
                assert(!has_host_header(hviews)) by {
                    if has_host_header(hviews) {
                        let w = choose|w: int|
                            0 <= w < hviews.len() && #[trigger] hviews[w].0 == "Host"@;
                        assert(hviews[w].0 != "Host"@);
                    }
                }
                assert(out@ =~= with_hdrs + (seq![72u8, 111u8, 115u8, 116u8, 58u8, 32u8]
                    + addr_text(*ip) + seq![58u8] + dec_digits(port as nat) + seq![13u8, 10u8]));
            }
        }
        out.push(13);
        out.push(10);
        proof {
            assert(out@ =~= request_text(
                self.opts.method@,
                self.opts.path@,
                header_views(self.opts.headers@),
                *ip,
                port,
            ));
        }
        out
    }

    /// The size of the largest request this probe can send: the
    /// request formatted for the widest target text.
    pub fn max_tx_size(&mut self) -> (r: usize)
        ensures
            final(self).opts == old(self).opts,
            r == request_text(
                old(self).opts.method@,
                old(self).opts.path@,
                header_views(old(self).opts.headers@),
                IpAddress::V4(0xffff_ffff),
                0xffff,
            ).len(),
            final(self).tx_buf_size == Some(r),
    {
        let widest: IpAddress = IpAddress::V4(0xffff_ffff);
        let req: Vec<u8> = self.format_request(&widest, 0xffff);
        let sz: usize = req.len();
        self.tx_buf_size = Some(sz);
        sz
    }

    /// How many linked operations one address's probe chain holds.
    pub fn ops_per_ip(&self) -> (r: usize)
        ensures
            r == 7,
    {
        7
    }
}

/// The request for the all-ones target is the longest over every IPv4
/// target and port: buffers sized by `max_tx_size` hold the request of
/// any address the batch scanner probes.
pub proof fn lemma_max_tx_size_bounds(
    method: Seq<char>,
    path: Seq<char>,
    headers: Seq<(Seq<char>, Seq<char>)>,
    v: u32,
    port: u16,
)
    ensures
        request_text(method, path, headers, IpAddress::V4(v), port).len() <= request_text(
            method,
            path,
            headers,
            IpAddress::V4(0xffff_ffffu32),
            0xffff,
        ).len(),
{
    if !has_host_header(headers) {
        crate::addr::lemma_v4_text_len_le(v);
        crate::addr::lemma_dec_digits_len_le(port as nat, 0xffff);
    }
}

/// The check of one response header line against the configured
/// patterns: the line was no header at all, or it was one and each
/// pattern either hit or missed its value.
#[derive(Clone, Copy, PartialEq, Eq, Structural, Debug)]
pub enum HeaderCheck {
    NotHeader,
    Header { filter_hit: bool, match_hit: bool },
}

/// The verdict over the header checks of a response, as the scan takes
/// it: the first header whose value hits the filter rejects the
/// response; otherwise the first one that hits the matcher accepts it;
/// otherwise the response passes if some header parsed at all, or if
/// no matcher is configured.
pub open spec fn response_verdict(checks: Seq<HeaderCheck>, has_matcher: bool, has_valid: bool) -> bool
    decreases checks.len(),
{
    if checks.len() == 0 {
        has_valid || !has_matcher
    } else {
        match checks[0] {
            HeaderCheck::NotHeader => response_verdict(checks.skip(1), has_matcher, has_valid),
            HeaderCheck::Header { filter_hit, match_hit } => {
                if filter_hit {
                    false
                } else if match_hit {
                    true
                } else {
                    response_verdict(checks.skip(1), has_matcher, true)
                }
            },
        }
    }
}

/// Decides a response from its header checks, as `response_verdict`
/// says.
pub fn classify_header_checks(checks: &Vec<HeaderCheck>, has_matcher: bool) -> (r: bool)
    ensures
        r == response_verdict(checks@, has_matcher, false),
{
    let n: usize = checks.len();
    let mut has_valid: bool = false;
    let mut i: usize = 0;
    proof {
        assert(checks@.skip(0) =~= checks@);
    }
    while i < n
        invariant
            0 <= i <= n,
            n == checks@.len(),
            response_verdict(checks@, has_matcher, false) == response_verdict(
                checks@.skip(i as int),
                has_matcher,
                has_valid,
            ),
        decreases n - i,
    {
        proof {
            assert(checks@.skip(i as int)[0] == checks@[i as int]);
            assert(checks@.skip(i as int).skip(1) =~= checks@.skip(i + 1));
        }
        match checks[i] {
            HeaderCheck::NotHeader => {},
            HeaderCheck::Header { filter_hit, match_hit } => {
                if filter_hit {
                    return false;
                } else if match_hit {
                    return true;
                } else {
                    has_valid = true;
                }
            },
        }
        i = i + 1;
    }
    has_valid || !has_matcher
}

/// The check of one CRLF line against the configured patterns: a line
/// without a colon is no header; one with a colon has its trimmed
/// value matched against each configured pattern text.
pub open spec fn header_check_of(
    line: Seq<u8>,
    filter_pat: Option<Seq<char>>,
    match_pat: Option<Seq<char>>,
) -> HeaderCheck {
    match find_byte(line, 58) {
        None => HeaderCheck::NotHeader,
        Some(i) => {
            let val = trim_spec(line.skip(i + 1));
            HeaderCheck::Header {
                filter_hit: match filter_pat {
                    Some(p) => crate::input::regex_match_of(p, val),
                    None => false,
                },
                match_hit: match match_pat {
                    Some(p) => crate::input::regex_match_of(p, val),
                    None => false,
                },
            }
        },
    }
}

/// The checks of every line of a response.
pub open spec fn response_checks(
    lines: Seq<Seq<u8>>,
    filter_pat: Option<Seq<char>>,
    match_pat: Option<Seq<char>>,
) -> Seq<HeaderCheck> {
    lines.map_values(|l: Seq<u8>| header_check_of(l, filter_pat, match_pat))
}

/// The pattern text of a configured matcher.
pub open spec fn pattern_of(p: Option<ResponseHttpHeaderRegex>) -> Option<Seq<char>> {
    match p {
        Some(r) => Some(r.spec_pattern()),
        None => None,
    }
}

impl ScanHttp {
    /// Checks a raw response against the configured patterns: each
    /// CRLF line that parses as a header has its trimmed value
    /// matched, and the verdict follows `response_verdict` over those
    /// checks.
    pub fn handle_response(&self, buf: &[u8]) -> (r: bool)
        ensures
            r == response_verdict(
                response_checks(
                    split_crlf(buf@),
                    pattern_of(self.opts.resp_header_filter),
                    pattern_of(self.opts.resp_header_match),
                ),
                self.opts.resp_header_match is Some,
                false,
            ),
    {
        let ghost filter_pat = pattern_of(self.opts.resp_header_filter);
        let ghost match_pat = pattern_of(self.opts.resp_header_match);
        let lines: Vec<Vec<u8>> = crate::text::split_on_crlf(buf);
        let ghost lv: Seq<Seq<u8>> = lines@.map_values(|t: Vec<u8>| t@);
        let mut checks: Vec<HeaderCheck> = Vec::new();
        let n: usize = lines.len();
        let mut i: usize = 0;
        while i < n
            invariant
                0 <= i <= n,
                n == lines@.len(),
                lv == lines@.map_values(|t: Vec<u8>| t@),
                lv == split_crlf(buf@),
                filter_pat == pattern_of(self.opts.resp_header_filter),
                match_pat == pattern_of(self.opts.resp_header_match),
                checks@ == response_checks(lv.take(i as int), filter_pat, match_pat),
            decreases n - i,
        {
            proof {
                assert(lv[i as int] == lines@[i as int]@);
            }
            match Self::parse_header_line(lines[i].as_slice()) {
                Some(kv) => {
                    let filter_hit: bool = match &self.opts.resp_header_filter {
                        Some(f) => f.is_match(kv.1.as_slice()),
                        None => false,
                    };
                    let match_hit: bool = match &self.opts.resp_header_match {
                        Some(m) => m.is_match(kv.1.as_slice()),
                        None => false,
                    };
                    checks.push(HeaderCheck::Header { filter_hit, match_hit });
                    proof {
                        assert(checks@.last() == header_check_of(
                            lv[i as int],
                            filter_pat,
                            match_pat,
                        ));
                    }
                },
                None => {
                    checks.push(HeaderCheck::NotHeader);
                    proof {
                        assert(checks@.last() == header_check_of(
                            lv[i as int],
                            filter_pat,
                            match_pat,
                        ));
                    }
                },
            }
            i = i + 1;
            proof {
                assert(checks@ =~= response_checks(lv.take(i as int), filter_pat, match_pat));
            }
        }
        proof {
            assert(lv.take(n as int) =~= lv);
        }
        let has_matcher: bool = match &self.opts.resp_header_match {
            Some(_) => true,
            None => false,
        };
        classify_header_checks(&checks, has_matcher)
    }
}

/// What the completion of one submitted operation asks of the driver/// What the completion of one submitted operation asks of the driver:
/// whether the received buffer is to be inspected, whether the file
/// descriptor must be closed by hand (the linked timeout cancelled the
/// close), and whether this completion ends its address's chain.
pub fn completion_action(step: EntryStep, result: i32) -> (r: (bool, bool, bool))
    ensures
        r.0 == (step == EntryStep::Recv && result > 0),
        r.1 == (step == EntryStep::Close && result == -ECANCELED_ERRNO),
        r.2 == (step == EntryStep::Close),
{
    match step {
        EntryStep::Recv => (result > 0, false, false),
        EntryStep::Close => (false, result == -ECANCELED_ERRNO, true),
        _ => (false, false, false),
    }
}

} // verus!
