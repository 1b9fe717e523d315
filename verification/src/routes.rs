//! Routing-consistency checking: scanning a raw HTTP response for the
//! marker header, classifying a run of probe outcomes, and ranking the
//! results.
use vstd::prelude::*;
use vstd::relations::sorted_by;
use vstd::string::StringSliceAdditionalSpecFns;

use crate::addr::IpAddress;
use crate::addr::addr_le;
use crate::sorting::Ranked;
use crate::text::split_crlf;
use crate::text::upper_byte;

verus! {

/// How consistently a CDN edge answered over the probes of one address.
#[derive(Clone, Copy, PartialEq, Eq, Structural, Debug)]
pub enum RouteStatus {
    /// Every probe that yielded a location code agreed on it.
    Normal,
    /// No probe yielded a location code.
    NoLocation,
    /// Two probes yielded different location codes.
    DiffLocation,
}

/// The check result of one address.
#[derive(Clone, PartialEq, Eq, Debug)]
pub struct CFCDNCheckResult {
    pub ip: IpAddress,
    pub route_status: RouteStatus,
    /// Bytes of the location code, empty when none was obtained.
    pub location_code: Vec<u8>,
}

/// The marker-header line: after ASCII upper-casing it starts with
/// "CF-RAY".
pub open spec fn is_marker_line(line: Seq<u8>) -> bool {
    line.len() >= 6 && line.map_values(|b: u8| upper_byte(b)).take(6) == "CF-RAY"@.map_values(
        |c: char| c as u8,
    )
}

/// Index of the first marker line, if any.
pub open spec fn find_marker(lines: Seq<Seq<u8>>) -> Option<int>
    decreases lines.len(),
{
    if lines.len() == 0 {
        None
    } else if is_marker_line(lines[0]) {
        Some(0int)
    } else {
        match find_marker(lines.skip(1)) {
            Some(i) => Some(i + 1),
            None => None,
        }
    }
}

pub proof fn lemma_find_marker(lines: Seq<Seq<u8>>)
    ensures
        match find_marker(lines) {
            Some(i) => 0 <= i < lines.len() && is_marker_line(lines[i]) && (forall|j: int|
                0 <= j < i ==> !is_marker_line(#[trigger] lines[j])),
            None => forall|j: int| 0 <= j < lines.len() ==> !is_marker_line(#[trigger] lines[j]),
        },
    decreases lines.len(),
{
    if lines.len() != 0 && !is_marker_line(lines[0]) {
        lemma_find_marker(lines.skip(1));
        match find_marker(lines.skip(1)) {
            Some(i) => {
                assert forall|j: int| 0 <= j < i + 1 implies !is_marker_line(
                    #[trigger] lines[j],
                ) by {
                    if j > 0 {
                        assert(lines[j] == lines.skip(1)[j - 1]);
                    }
                }
            },
            None => {
                assert forall|j: int| 0 <= j < lines.len() implies !is_marker_line(
                    #[trigger] lines[j],
                ) by {
                    if j > 0 {
                        assert(lines[j] == lines.skip(1)[j - 1]);
                    }
                }
            },
        }
    }
}

proof fn lemma_find_marker_is_first(lines: Seq<Seq<u8>>, i: int)
    requires
        0 <= i < lines.len(),
        is_marker_line(lines[i]),
        forall|j: int| 0 <= j < i ==> !is_marker_line(#[trigger] lines[j]),
    ensures
        find_marker(lines) == Some(i),
{
    lemma_find_marker(lines);
    match find_marker(lines) {
        Some(k) => {
            if k < i {
                assert(!is_marker_line(lines[k]));
            }
            if i < k {
                assert(!is_marker_line(lines[i]));
            }
        },
        None => {
            assert(!is_marker_line(lines[i]));
        },
    }
}

/// The location code in a raw response: the last three bytes of the
/// first line that starts (case-insensitively) with the marker header
/// name.
pub open spec fn location_code_of(buf: Seq<u8>) -> Option<Seq<u8>> {
    let lines = split_crlf(buf);
    match find_marker(lines) {
        None => None,
        Some(i) => Some(lines[i].skip(lines[i].len() - 3)),
    }
}

/// Scans a raw HTTP response for the marker header and hands back the
/// three-byte location code of its line, if one is there.
pub fn extract_location_code(buf: &[u8]) -> (r: Option<Vec<u8>>)
    ensures
        match r {
            Some(code) => location_code_of(buf@) == Some(code@),
            None => location_code_of(buf@) is None,
        },
{
    let lines: Vec<Vec<u8>> = crate::text::split_on_crlf(buf);
    let marker: &[u8] = "CF-RAY".as_bytes();
    proof {
        reveal_strlit("CF-RAY");
        assert(vstd::string::is_ascii("CF-RAY"));
        vstd::string::is_ascii_spec_bytes("CF-RAY");
        assert(marker@ =~= "CF-RAY"@.map_values(|c: char| c as u8));
        assert(marker@.len() == 6);
    }
    let n: usize = lines.len();
    let ghost lv: Seq<Seq<u8>> = lines@.map_values(|t: Vec<u8>| t@);
    let mut i: usize = 0;
    while i < n
        invariant
            0 <= i <= n,
            n == lines@.len(),
            lv == lines@.map_values(|t: Vec<u8>| t@),
            lv == split_crlf(buf@),
            marker@ == "CF-RAY"@.map_values(|c: char| c as u8),
            marker@.len() == 6,
            forall|j: int| 0 <= j < i ==> !is_marker_line(#[trigger] lv[j]),
        decreases n - i,
    {
        let line: &Vec<u8> = &lines[i];
        let upper: Vec<u8> = crate::text::to_upper_bytes(line.as_slice());
        let starts: bool = crate::text::starts_with_bytes(upper.as_slice(), marker);
        proof {
            assert(lv[i as int] == line@);
            if starts {
                assert(upper@.take(6) == line@.map_values(|b: u8| upper_byte(b)).take(6));
                assert(is_marker_line(lv[i as int]));
            } else {
                assert(!is_marker_line(lv[i as int]));
            }
        }
        if starts {
            proof {
                lemma_find_marker_is_first(lv, i as int);
            }
            let len: usize = line.len();
            proof {
                assert(lv[i as int].len() >= 6);
            }
            let code: Vec<u8> = vstd::slice::slice_to_vec(&line.as_slice()[len - 3..len]);
            proof {
                assert(code@ =~= lv[i as int].skip(lv[i as int].len() - 3));
                assert(location_code_of(buf@) == Some(code@));
            }
            return Some(code);
        }
        i = i + 1;
    }
    proof {
        lemma_find_marker(lv);
        if find_marker(lv) is Some {
            let k = find_marker(lv)->Some_0;
            assert(!is_marker_line(lv[k]));
        }
    }
    None
}

/// Index of the first probe that yielded a code, if any.
pub open spec fn find_code(s: Seq<Option<Seq<u8>>>) -> Option<int>
    decreases s.len(),
{
    if s.len() == 0 {
        None
    } else if s[0] is Some {
        Some(0int)
    } else {
        match find_code(s.skip(1)) {
            Some(i) => Some(i + 1),
            None => None,
        }
    }
}

pub proof fn lemma_find_code(s: Seq<Option<Seq<u8>>>)
    ensures
        match find_code(s) {
            Some(i) => 0 <= i < s.len() && s[i] is Some && (forall|j: int|
                0 <= j < i ==> !(#[trigger] s[j] is Some)),
            None => forall|j: int| 0 <= j < s.len() ==> !(#[trigger] s[j] is Some),
        },
    decreases s.len(),
{
    if s.len() != 0 && !(s[0] is Some) {
        lemma_find_code(s.skip(1));
        match find_code(s.skip(1)) {
            Some(i) => {
                assert forall|j: int| 0 <= j < i + 1 implies !(#[trigger] s[j] is Some) by {
                    if j > 0 {
                        assert(s[j] == s.skip(1)[j - 1]);
                    }
                }
            },
            None => {
                assert forall|j: int| 0 <= j < s.len() implies !(#[trigger] s[j] is Some) by {
                    if j > 0 {
                        assert(s[j] == s.skip(1)[j - 1]);
                    }
                }
            },
        }
    }
}

proof fn lemma_find_code_is_first(s: Seq<Option<Seq<u8>>>, i: int)
    requires
        0 <= i < s.len(),
        s[i] is Some,
        forall|j: int| 0 <= j < i ==> !(#[trigger] s[j] is Some),
    ensures
        find_code(s) == Some(i),
{
    lemma_find_code(s);
    match find_code(s) {
        Some(k) => {
            if k < i {
                assert(!(s[k] is Some));
            }
            if i < k {
                assert(!(s[i] is Some));
            }
        },
        None => {
            assert(!(s[i] is Some));
        },
    }
}

/// The classification of one address's probe outcomes: no code at all is
/// `NoLocation`; a later code different from the first one found is
/// `DiffLocation`; otherwise `Normal`, with the first code kept.
pub open spec fn route_of(s: Seq<Option<Seq<u8>>>) -> (RouteStatus, Seq<u8>) {
    match find_code(s) {
        None => (RouteStatus::NoLocation, Seq::empty()),
        Some(i) => {
            let c = s[i]->0;
            if exists|j: int| i < j < s.len() && #[trigger] s[j] is Some && s[j]->0 != c {
                (RouteStatus::DiffLocation, c)
            } else {
                (RouteStatus::Normal, c)
            }
        },
    }
}

/// The probe outcomes as mathematical values.
pub open spec fn outcome_views(s: Seq<Option<Vec<u8>>>) -> Seq<Option<Seq<u8>>> {
    s.map_values(
        |o: Option<Vec<u8>>|
            match o {
                Some(v) => Some(v@),
                None => None::<Seq<u8>>,
            },
    )
}

/// Classifies the probe outcomes of one address, as `route_of` says.
pub fn classify_route(outcomes: &Vec<Option<Vec<u8>>>) -> (r: (RouteStatus, Vec<u8>))
    ensures
        r.0 == route_of(outcome_views(outcomes@)).0,
        r.1@ == route_of(outcome_views(outcomes@)).1,
{
    let ghost s: Seq<Option<Seq<u8>>> = outcome_views(outcomes@);
    let n: usize = outcomes.len();
    proof {
        assert(s.len() == n);
    }
    let mut i: usize = 0;
    while i < n
        invariant
            0 <= i <= n,
            n == s.len(),
            s == outcome_views(outcomes@),
            n == outcomes@.len(),
            forall|j: int| 0 <= j < i ==> !(#[trigger] s[j] is Some),
        decreases n - i,
    {
        match &outcomes[i] {
            Some(code) => {
                proof {
                    lemma_find_code_is_first(s, i as int);
                }
                // scan the remaining outcomes for a different code
                let c: &Vec<u8> = code;
                let ghost fi: int = i as int;
                let mut j: usize = i + 1;
                while j < n
                    invariant
                        fi < j <= n,
                        0 <= fi < n,
                        n == s.len(),
                        s == outcome_views(outcomes@),
                        n == outcomes@.len(),
                        find_code(s) == Some(fi),
                        s[fi] is Some,
                        c@ == s[fi]->0,
                        forall|k: int|
                            fi < k < j ==> !(#[trigger] s[k] is Some && s[k]->0 != c@),
                    decreases n - j,
                {
                    match &outcomes[j] {
                        Some(other) => {
                            if !crate::text::eq_bytes(other.as_slice(), c.as_slice()) {
                                proof {
                                    assert(s[j as int] is Some && s[j as int]->0 != c@);
                                }
                                return (
                                    RouteStatus::DiffLocation,
                                    vstd::slice::slice_to_vec(c.as_slice()),
                                );
                            }
                        },
                        None => {},
                    }
                    j = j + 1;
                }
                proof {
                    assert forall|k: int|
                        fi < k < s.len() && #[trigger] s[k] is Some implies s[k]->0 == c@ by {
                        assert(!(s[k] is Some && s[k]->0 != c@));
                    }
                }
                return (RouteStatus::Normal, vstd::slice::slice_to_vec(c.as_slice()));
            },
            None => {
                proof {
                    assert(!(s[i as int] is Some));
                }
            },
        }
        i = i + 1;
    }
    proof {
        lemma_find_code(s);
        if find_code(s) is Some {
            let k = find_code(s)->Some_0;
            assert(!(s[k] is Some));
        }
    }
    let none_code: Vec<u8> = Vec::new();
    proof {
        assert(none_code@ =~= Seq::<u8>::empty());
    }
    (RouteStatus::NoLocation, none_code)
}

/// A run of outcomes that all agree on one code is classified `Normal`;
/// one holding two different codes is classified `DiffLocation`; one
/// with no code at all is classified `NoLocation`.
pub proof fn lemma_route_classification(s: Seq<Option<Seq<u8>>>)
    ensures
        ((exists|i: int| 0 <= i < s.len() && #[trigger] s[i] is Some) && (forall|i: int, j: int|
            0 <= i < s.len() && 0 <= j < s.len() && #[trigger] s[i] is Some && #[trigger] s[j]
                is Some ==> s[i]->0 == s[j]->0)) ==> route_of(s).0 == RouteStatus::Normal,
        (exists|i: int, j: int|
            0 <= i < s.len() && 0 <= j < s.len() && #[trigger] s[i] is Some && #[trigger] s[j]
                is Some && s[i]->0 != s[j]->0) ==> route_of(s).0 == RouteStatus::DiffLocation,
        (forall|i: int| 0 <= i < s.len() ==> !(#[trigger] s[i] is Some)) ==> route_of(s).0
            == RouteStatus::NoLocation,
{
    lemma_find_code(s);
    if exists|i: int| 0 <= i < s.len() && #[trigger] s[i] is Some {
        let w = choose|i: int| 0 <= i < s.len() && #[trigger] s[i] is Some;
        assert(find_code(s) is Some) by {
            if find_code(s) is None {
                assert(!(s[w] is Some));
            }
        }
        let f = find_code(s)->Some_0;
        let c = s[f]->0;
        if exists|i: int, j: int|
            0 <= i < s.len() && 0 <= j < s.len() && #[trigger] s[i] is Some && #[trigger] s[j]
                is Some && s[i]->0 != s[j]->0 {
            let (a, b) = choose|i: int, j: int|
                0 <= i < s.len() && 0 <= j < s.len() && #[trigger] s[i] is Some && #[trigger] s[j]
                    is Some && s[i]->0 != s[j]->0;
            // one of the two differing codes differs from the first one,
            // and the first one stands at or before both
            if s[a]->0 != c {
                assert(f < a < s.len() && s[a] is Some && s[a]->0 != c);
            } else {
                assert(s[b]->0 != c);
                assert(f < b < s.len() && s[b] is Some && s[b]->0 != c);
            }
        }
    }
}

/// Rank of a route status in the ranking order: consistent routing
/// first, then inconsistent, then no code at all.
pub open spec fn status_rank(s: RouteStatus) -> int {
    match s {
        RouteStatus::Normal => 0,
        RouteStatus::DiffLocation => 1,
        RouteStatus::NoLocation => 2,
    }
}

/// The route order: by status rank, ties broken by the address order.
impl Ranked for CFCDNCheckResult {
    open spec fn leq(a: CFCDNCheckResult, b: CFCDNCheckResult) -> bool {
        if status_rank(a.route_status) != status_rank(b.route_status) {
            status_rank(a.route_status) < status_rank(b.route_status)
        } else {
            addr_le(a.ip, b.ip)
        }
    }

    proof fn lemma_leq_total(a: CFCDNCheckResult, b: CFCDNCheckResult) {
    }

    proof fn lemma_leq_trans(a: CFCDNCheckResult, b: CFCDNCheckResult, c: CFCDNCheckResult) {
    }

    fn leq_exec(&self, other: &CFCDNCheckResult) -> (r: bool) {
        let ra: u8 = match self.route_status {
            RouteStatus::Normal => 0,
            RouteStatus::DiffLocation => 1,
            RouteStatus::NoLocation => 2,
        };
        let rb: u8 = match other.route_status {
            RouteStatus::Normal => 0,
            RouteStatus::DiffLocation => 1,
            RouteStatus::NoLocation => 2,
        };
        if ra != rb {
            ra < rb
        } else {
            crate::addr::addr_le_exec(&self.ip, &other.ip)
        }
    }
}

/// Ranks route check results: see the order on `CFCDNCheckResult`.
pub fn sort_routes(v: Vec<CFCDNCheckResult>) -> (r: Vec<CFCDNCheckResult>)
    ensures
        sorted_by(r@, |a: CFCDNCheckResult, b: CFCDNCheckResult| CFCDNCheckResult::leq(a, b)),
        r@.to_multiset() == v@.to_multiset(),
{
    crate::sorting::sort_ranked(v)
}

/// Keeps the results worth reporting (a location code was seen) and
/// counts how many were inconsistent and how many yielded nothing.
pub fn process_results(results: Vec<CFCDNCheckResult>) -> (r: (
    Vec<CFCDNCheckResult>,
    usize,
    usize,
))
    ensures
        r.0@ == results@.filter(
            |c: CFCDNCheckResult| c.route_status != RouteStatus::NoLocation,
        ),
        r.1 == results@.filter(
            |c: CFCDNCheckResult| c.route_status == RouteStatus::NoLocation,
        ).len(),
        r.2 == results@.filter(
            |c: CFCDNCheckResult| c.route_status == RouteStatus::DiffLocation,
        ).len(),
{
    let ghost keep = |c: CFCDNCheckResult| c.route_status != RouteStatus::NoLocation;
    let ghost is_empty = |c: CFCDNCheckResult| c.route_status == RouteStatus::NoLocation;
    let ghost is_diff = |c: CFCDNCheckResult| c.route_status == RouteStatus::DiffLocation;
    let mut valid: Vec<CFCDNCheckResult> = Vec::new();
    let mut empty: usize = 0;
    let mut diff: usize = 0;
    let n: usize = results.len();
    let mut rest: Vec<CFCDNCheckResult> = results;
    let ghost orig: Seq<CFCDNCheckResult> = rest@;
    let ghost i: int = 0;
    proof {
        reveal(Seq::filter);
        assert(orig.skip(0) =~= orig);
        assert(orig.take(0) =~= Seq::<CFCDNCheckResult>::empty());
    }
    while rest.len() > 0
        invariant
            0 <= i <= orig.len(),
            orig.len() == n,
            empty <= i,
            diff <= i,
            rest@ == orig.skip(i),
            valid@ == orig.take(i).filter(keep),
            empty == orig.take(i).filter(is_empty).len(),
            diff == orig.take(i).filter(is_diff).len(),
            keep == (|c: CFCDNCheckResult| c.route_status != RouteStatus::NoLocation),
            is_empty == (|c: CFCDNCheckResult| c.route_status == RouteStatus::NoLocation),
            is_diff == (|c: CFCDNCheckResult| c.route_status == RouteStatus::DiffLocation),
        decreases rest@.len(),
    {
        proof {
            reveal(Seq::filter);
            assert(orig.take(i + 1).drop_last() =~= orig.take(i));
            assert(orig.take(i + 1).last() == orig[i]);
            assert(rest@[0] == orig[i]);
            assert(rest@.len() == orig.len() - i);
        }
        let rec: CFCDNCheckResult = rest.remove(0);
        proof {
            assert(rec == orig[i]);
            assert(rest@ =~= orig.skip(i + 1));
        }
        match rec.route_status {
            RouteStatus::Normal => {
                valid.push(rec);
            },
            RouteStatus::DiffLocation => {
                valid.push(rec);
                diff = diff + 1;
            },
            RouteStatus::NoLocation => {
                empty = empty + 1;
            },
        }
        proof {
            i = i + 1;
        }
    }
    proof {
        assert(orig.take(orig.len() as int) =~= orig);
        assert(orig.skip(i).len() == 0);
        assert(i == orig.len());
    }
    (valid, empty, diff)
}

/// The raw trace request sent to one address: a fixed HTTP/1.1 line
/// with the address itself as the host.
pub open spec fn trace_request_text(ip: IpAddress) -> Seq<u8> {
    "GET /cdn-cgi/trace HTTP/1.1\r\nHost: "@.map_values(|c: char| c as u8) + crate::addr::addr_text(
        ip,
    ) + "\r\nConnection: close\r\n\r\n"@.map_values(|c: char| c as u8)
}

/// Formats the raw trace request for one address.
pub fn trace_request(ip: &IpAddress) -> (r: Vec<u8>)
    ensures
        r@ == trace_request_text(*ip),
{
    let head: &[u8] = "GET /cdn-cgi/trace HTTP/1.1\r\nHost: ".as_bytes();
    let tail: &[u8] = "\r\nConnection: close\r\n\r\n".as_bytes();
    proof {
        reveal_strlit("GET /cdn-cgi/trace HTTP/1.1\r\nHost: ");
        assert(vstd::string::is_ascii("GET /cdn-cgi/trace HTTP/1.1\r\nHost: "));
        vstd::string::is_ascii_spec_bytes("GET /cdn-cgi/trace HTTP/1.1\r\nHost: ");
        assert(head@ =~= "GET /cdn-cgi/trace HTTP/1.1\r\nHost: "@.map_values(|c: char| c as u8));
        reveal_strlit("\r\nConnection: close\r\n\r\n");
        assert(vstd::string::is_ascii("\r\nConnection: close\r\n\r\n"));
        vstd::string::is_ascii_spec_bytes("\r\nConnection: close\r\n\r\n");
        assert(tail@ =~= "\r\nConnection: close\r\n\r\n"@.map_values(|c: char| c as u8));
    }
    let mut out: Vec<u8> = Vec::new();
    crate::csv::append_slice(&mut out, head);
    let ab: Vec<u8> = ip.text_bytes();
    crate::csv::append_slice(&mut out, ab.as_slice());
    crate::csv::append_slice(&mut out, tail);
    proof {
        assert(out@ =~= trace_request_text(*ip));
    }
    out
}

/// The checker configuration.
pub struct CloudflareChecker {
    pub ips: Vec<IpAddress>,
    pub tries_per_ip: u64,
    pub request_timeout_ms: u64,
    pub request_port: u16,
    pub batch_size: usize,
}

impl CloudflareChecker {
    pub fn new(
        ips_to_check: Vec<IpAddress>,
        tries_per_ip: u64,
        request_timeout_ms: u64,
        request_port: u16,
        batch_size: usize,
    ) -> (c: CloudflareChecker)
        ensures
            c.ips == ips_to_check,
            c.tries_per_ip == tries_per_ip,
            c.request_timeout_ms == request_timeout_ms,
            c.request_port == request_port,
            c.batch_size == batch_size,
    {
        CloudflareChecker {
            ips: ips_to_check,
            tries_per_ip,
            request_timeout_ms,
            request_port,
            batch_size,
        }
    }
}

} // verus!
