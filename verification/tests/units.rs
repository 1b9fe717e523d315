//! Checks of the smaller pieces: address text, response scanning,
//! chunk accounting, the moving average, the record maps and the slot
//! pools.
use rustspeedtest::addr::IpAddress;
use rustspeedtest::csv::IpRecordMap;
use rustspeedtest::download::ChunkEvent;
use rustspeedtest::download::first_success;
use rustspeedtest::download::process_chunks;
use rustspeedtest::download::Speed;
use rustspeedtest::emwa::MovingAverage;
use rustspeedtest::httping::is_valid_http_response;
use rustspeedtest::input::HttpScanOptions;
use rustspeedtest::ring::entry_slot_count;
use rustspeedtest::routes::extract_location_code;
use rustspeedtest::scan_http::completion_action;
use rustspeedtest::scan_http::ScanHttp;
use rustspeedtest::ring::EntryInfo;
use rustspeedtest::ring::EntryStep;
use rustspeedtest::ring::SlotPool;
use rustspeedtest::scanner::aggregate_attempts;
use rustspeedtest::scanner::filter_delays;
use rustspeedtest::scanner::is_fatal_connect_error;
use rustspeedtest::scanner::AttemptOutcome;
use rustspeedtest::scanner::Delay;
use rustspeedtest::utils::get_domain_from_url;
use rustspeedtest::utils::UrlError;
use rustspeedtest::scan_http::classify_header_checks;
use rustspeedtest::scan_http::HeaderCheck;
use rustspeedtest::scan_tcp::tcp_chain_steps;
use rustspeedtest::scan_tcp::tcp_completion_action;
use rustspeedtest::scan_tcp::ScanTcpConnect;

fn v4(a: u8, b: u8, c: u8, d: u8) -> IpAddress {
    IpAddress::from_v4_octets(a, b, c, d)
}

#[test]
fn address_text_and_parse() {
    let ip = v4(203, 0, 113, 9);
    assert_eq!(ip.to_text(), "203.0.113.9");
    assert_eq!(IpAddress::parse("203.0.113.9"), Some(ip));
    assert_eq!(IpAddress::parse("203.0.113"), None);
    assert_eq!(IpAddress::parse("203.0.113.256"), None);
    assert_eq!(IpAddress::parse("203.0.113.09"), None);
    assert_eq!(IpAddress::parse("not an address"), None);
    let six = IpAddress::V6(1);
    assert_eq!(six.to_text(), "::1");
    assert_eq!(IpAddress::V6(0).to_text(), "::");
    // 2001:db8::8d3:0:0:1 keeps its single zero group uncompressed and
    // squeezes the longer run, as the canonical form asks
    let mixed: u128 = 0x2001_0db8_0000_0000_08d3_0000_0000_0001;
    assert_eq!(IpAddress::V6(mixed).to_text(), "2001:db8::8d3:0:0:1");
}

#[test]
fn location_code_scan() {
    let response = b"HTTP/1.1 200 OK\r\ncf-ray: 8735a-SJC\r\nConnection: close\r\n\r\n";
    assert_eq!(extract_location_code(response), Some(b"SJC".to_vec()));
    let response = b"HTTP/1.1 200 OK\r\nServer: nginx\r\n\r\n";
    assert_eq!(extract_location_code(response), None);
}

#[test]
fn http_response_validity() {
    assert!(is_valid_http_response(b"HTTP/1.1 200 OK\r\n"));
    assert!(is_valid_http_response(b"HTTP/1.0 301 Moved\r\n"));
    assert!(!is_valid_http_response(b"SSH-2.0-OpenSSH\r\n"));
    assert!(!is_valid_http_response(b""));
}

#[test]
fn attempt_aggregation() {
    let outcomes = vec![
        AttemptOutcome::Connected(100),
        AttemptOutcome::Failed,
        AttemptOutcome::Connected(50),
    ];
    let d = aggregate_attempts(v4(1, 2, 3, 4), &outcomes);
    assert_eq!(d.success, 2);
    assert_eq!(d.consume, 75);

    let none = aggregate_attempts(v4(1, 2, 3, 4), &vec![AttemptOutcome::Failed]);
    assert_eq!(none.success, 0);
    assert_eq!(none.consume, 0);
}

#[test]
fn latency_filter_bounds() {
    let mk = |o: u8, ms: u64| Delay { ip: v4(2, 0, 0, o), consume: ms * 1_000_000, success: 1 };
    let kept = filter_delays(vec![mk(1, 5), mk(2, 100), mk(3, 9999)], 200, 9);
    assert_eq!(kept.len(), 1);
    assert_eq!(kept[0].ip, v4(2, 0, 0, 2));
}

#[test]
fn fatal_connect_error_detection() {
    assert!(is_fatal_connect_error(b"Too Many Open Files (os error 24)"));
    assert!(!is_fatal_connect_error(b"connection refused"));
}

#[test]
fn chunk_accounting() {
    let events = vec![ChunkEvent::Data(100), ChunkEvent::Data(50)];
    assert_eq!(process_chunks(&events), Ok(150));

    let stopped = vec![
        ChunkEvent::Data(100),
        ChunkEvent::ReadError(b"operation timed out".to_vec()),
        ChunkEvent::Data(999),
    ];
    assert_eq!(process_chunks(&stopped), Ok(100));

    let failed = vec![
        ChunkEvent::Data(100),
        ChunkEvent::ReadError(b"connection reset".to_vec()),
    ];
    assert_eq!(process_chunks(&failed), Err(1));
}

#[test]
fn first_success_takes_earliest() {
    let rec = |o: u8| Speed { ip: v4(3, 0, 0, o), total_download: o as u64, consume_ms: 1 };
    assert_eq!(first_success(&vec![None, Some(rec(2)), Some(rec(3))]), Some(rec(2)));
    assert_eq!(first_success(&vec![None, None]), None);
}

#[test]
fn moving_average_steps() {
    let mut avg = MovingAverage::new(500);
    assert_eq!(avg.value(), 0);
    avg.add(100);
    assert_eq!(avg.value(), 100);
    avg.add(200);
    // half the new sample, half the old average
    assert_eq!(avg.value(), 150);
    avg.set(7);
    assert_eq!(avg.value(), 7);
}

#[test]
fn record_map_keeps_last() {
    let mut m: IpRecordMap<Delay> = IpRecordMap::new();
    m.insert(Delay { ip: v4(1, 1, 1, 1), consume: 5, success: 1 });
    m.insert(Delay { ip: v4(1, 1, 1, 1), consume: 9, success: 2 });
    m.insert(Delay { ip: v4(2, 2, 2, 2), consume: 3, success: 1 });
    assert_eq!(m.get(&v4(1, 1, 1, 1)).unwrap().consume, 9);
    assert_eq!(m.get(&v4(2, 2, 2, 2)).unwrap().success, 1);
    assert!(m.get(&v4(9, 9, 9, 9)).is_none());
}

#[test]
fn slot_pool_alloc_release() {
    let mut pool: SlotPool<EntryInfo> = SlotPool::new(2);
    assert_eq!(pool.allocated_count(), 0);
    let e = EntryInfo { ip: v4(1, 1, 1, 1), step: EntryStep::Connect, buf: None, fd: 3 };
    let a = pool.alloc_slot(e).unwrap();
    let b = pool
        .alloc_slot(EntryInfo { ip: v4(2, 2, 2, 2), step: EntryStep::Close, buf: None, fd: 4 })
        .unwrap();
    assert_eq!(pool.allocated_count(), 2);
    assert!(pool.alloc_slot(e).is_none());
    assert_eq!(pool.get(a).ip, v4(1, 1, 1, 1));
    assert_eq!(pool.get(b).fd, 4);
    pool.release(a);
    assert_eq!(pool.allocated_count(), 1);
    let c = pool
        .alloc_slot(EntryInfo { ip: v4(3, 3, 3, 3), step: EntryStep::Recv, buf: None, fd: 5 })
        .unwrap();
    assert_eq!(pool.get(c).step, EntryStep::Recv);
}

#[test]
fn entry_pool_sizing() {
    // seven operations per address: the queue depth caps the chains
    assert_eq!(entry_slot_count(200, 7), 256 * 7);
    assert_eq!(entry_slot_count(1_000_000, 7), (16384 / 7) * 7);
    assert_eq!(entry_slot_count(0, 7), 7);
}

#[test]
fn completion_decisions() {
    assert_eq!(completion_action(EntryStep::Recv, 42), (true, false, false));
    assert_eq!(completion_action(EntryStep::Recv, -104), (false, false, false));
    assert_eq!(completion_action(EntryStep::Close, 0), (false, false, true));
    assert_eq!(completion_action(EntryStep::Close, -125), (false, true, true));
    assert_eq!(completion_action(EntryStep::Connect, 0), (false, false, false));
}

#[test]
fn step_codes_round_trip() {
    for code in 0u8..=6 {
        assert_eq!(EntryStep::from_code(code).code(), code);
    }
}

#[test]
fn url_domain_errors() {
    assert_eq!(get_domain_from_url("https://example.com/").unwrap(), "example.com");
    assert_eq!(get_domain_from_url("https://127.0.0.1/"), Err(UrlError::NoDomain));
    assert_eq!(get_domain_from_url("mailto:rms@example.net"), Err(UrlError::NoDomain));
    assert_eq!(get_domain_from_url("::: not a url"), Err(UrlError::Parse));
}

#[test]
fn header_line_parsing() {
    let kv = ScanHttp::parse_header_line(b"Server:  nginx/1.2 ").unwrap();
    assert_eq!(kv.0, b"Server".to_vec());
    assert_eq!(kv.1, b"nginx/1.2".to_vec());
    assert!(ScanHttp::parse_header_line(b"no colon here").is_none());
}

#[test]
fn response_header_checks() {
    let hdr = |f: bool, m: bool| HeaderCheck::Header { filter_hit: f, match_hit: m };
    // a filter hit rejects, before any matcher could accept
    assert!(!classify_header_checks(&vec![hdr(true, true)], true));
    // a matcher hit accepts
    assert!(classify_header_checks(&vec![hdr(false, false), hdr(false, true)], true));
    // no matcher configured: any parsed header passes
    assert!(classify_header_checks(&vec![HeaderCheck::NotHeader, hdr(false, false)], false));
    // a parsed header passes even when the matcher never hit
    assert!(classify_header_checks(&vec![hdr(false, false)], true));
    // nothing parsed at all passes only without a matcher
    assert!(classify_header_checks(&vec![HeaderCheck::NotHeader], false));
    assert!(!classify_header_checks(&vec![HeaderCheck::NotHeader], true));
}

#[test]
fn scan_http_response_handling() {
    let opts = HttpScanOptions {
        method: "GET".to_string(),
        path: "/".to_string(),
        headers: vec![],
        resp_header_match: None,
        resp_header_filter: None,
    };
    let scan = ScanHttp::new(opts);
    assert!(scan.handle_response(b"HTTP/1.1 200 OK\r\nServer: nginx\r\n\r\n"));

    let matching = HttpScanOptions {
        method: "GET".to_string(),
        path: "/".to_string(),
        headers: vec![],
        resp_header_match: Some(
            rustspeedtest::input::ResponseHttpHeaderRegex::compile("nginx").unwrap(),
        ),
        resp_header_filter: None,
    };
    let scan = ScanHttp::new(matching);
    assert!(scan.handle_response(b"HTTP/1.1 200 OK\r\nServer: nginx\r\n\r\n"));
    // headers parsed, so the response passes though the matcher missed
    assert!(scan.handle_response(b"HTTP/1.1 200 OK\r\nServer: apache\r\n\r\n"));
    // a matcher against a response with no parseable header fails
    assert!(!scan.handle_response(b"garbage without any colon lines"));
}

#[test]
fn max_tx_size_is_request_length() {
    let opts = HttpScanOptions {
        method: "GET".to_string(),
        path: "/".to_string(),
        headers: vec![],
        resp_header_match: None,
        resp_header_filter: None,
    };
    let mut scan = ScanHttp::new(opts);
    let sz = scan.max_tx_size();
    let widest = scan.format_request(&IpAddress::V4(u32::MAX), u16::MAX);
    assert_eq!(sz, widest.len());
    assert_eq!(scan.tx_buf_size, Some(sz));
}

#[test]
fn trace_request_bytes() {
    let req = rustspeedtest::routes::trace_request(&v4(1, 1, 1, 1));
    assert_eq!(
        String::from_utf8(req).unwrap(),
        "GET /cdn-cgi/trace HTTP/1.1\r\nHost: 1.1.1.1\r\nConnection: close\r\n\r\n"
    );
}

#[test]
fn httping_request_bytes() {
    let req = rustspeedtest::httping::httping_request(&v4(10, 0, 0, 7), "curl/8.0", "X-T: 1");
    assert_eq!(
        String::from_utf8(req).unwrap(),
        "GET / HTTP/1.1\r\nAccept: */*\r\nConnection: close\r\nHost: 10.0.0.7\r\n\
         User-Agent: curl/8.0\r\nX-T: 1\r\n\r\n"
    );
}

#[test]
fn tcp_scan_decisions() {
    let probe = ScanTcpConnect::new();
    assert_eq!(probe.ops_per_ip(), 3);
    let steps = tcp_chain_steps();
    assert_eq!(
        steps,
        vec![EntryStep::Connect, EntryStep::ConnectTimeout, EntryStep::Close]
    );
    assert_eq!(tcp_completion_action(EntryStep::Close, 0), (false, true));
    assert_eq!(tcp_completion_action(EntryStep::Close, -125), (true, true));
    assert_eq!(tcp_completion_action(EntryStep::Connect, -110), (false, false));
}

#[test]
fn slot_pool_try_get() {
    let mut pool: SlotPool<EntryInfo> = SlotPool::new(1);
    assert!(pool.try_get(0).is_none());
    assert!(pool.try_get(7).is_none());
    let e = EntryInfo { ip: v4(1, 1, 1, 1), step: EntryStep::Recv, buf: None, fd: 9 };
    let idx = pool.alloc_slot(e).unwrap();
    assert_eq!(pool.try_get(idx).unwrap().fd, 9);
}
