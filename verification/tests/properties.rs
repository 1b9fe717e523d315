//! Concrete checks of the library's stated properties: expansion and
//! sub-sampling of the candidate pool, the ranking orders, route
//! classification, the download early exit, the concurrency bound and
//! the shape of the emitted table.
use rustspeedtest::addr::IpAddress;
use rustspeedtest::cidr::dedup_addresses;
use rustspeedtest::cidr::parse_addresses;
use rustspeedtest::csv::build_csv;
use rustspeedtest::download::Speed;
use rustspeedtest::download::collect_downloads;
use rustspeedtest::download::sort_speeds;
use rustspeedtest::pool::ProbePool;
use rustspeedtest::routes::CFCDNCheckResult;
use rustspeedtest::routes::RouteStatus;
use rustspeedtest::routes::classify_route;
use rustspeedtest::routes::sort_routes;
use rustspeedtest::scanner::Delay;
use rustspeedtest::text::split_on_byte;

fn v4(a: u8, b: u8, c: u8, d: u8) -> IpAddress {
    IpAddress::from_v4_octets(a, b, c, d)
}

#[test]
fn expansion_is_deduplicated() {
    // the /28 block lies inside the /24 block, so the union holds
    // exactly the /24 addresses
    let both = parse_addresses("192.168.1.1/24\n192.168.1.1/28");
    assert_eq!(both.len(), 256 + 16);
    let uniq = dedup_addresses(both);
    assert_eq!(uniq.len(), 256);

    let narrow = parse_addresses("192.168.1.1/28");
    assert_eq!(narrow.len(), 16);
    for ip in narrow {
        assert!(uniq.contains(&ip));
    }
}

#[test]
fn subsample_is_within_pool() {
    let mut opts = rustspeedtest::input::Opts::default();
    opts.address = vec!["10.1.0.0/24".to_string()];
    opts.random_number = 50;
    let picked = rustspeedtest::cidr::parse_addresses_from_opt(&opts);
    assert_eq!(picked.len(), 50);
    let pool = parse_addresses("10.1.0.0/24");
    for i in 0..picked.len() {
        assert!(pool.contains(&picked[i]));
        for j in 0..i {
            assert!(picked[i] != picked[j]);
        }
    }
}

#[test]
fn latency_order_puts_failures_last() {
    let mk = |o: u8, consume: u64, success: u8| Delay { ip: v4(10, 0, 0, o), consume, success };
    let sorted = sort_delays_helper(vec![
        mk(1, 5, 0),
        mk(2, 9, 3),
        mk(3, 7, 3),
        mk(4, 1, 0),
        mk(5, 4, 1),
    ]);
    // failures strictly after all successes
    let first_failure = sorted.iter().position(|d| d.success == 0).unwrap();
    assert!(sorted[first_failure..].iter().all(|d| d.success == 0));
    // within one success count, mean round-trip times do not decrease
    for w in sorted.windows(2) {
        if w[0].success == w[1].success && w[0].success > 0 {
            assert!(w[0].consume <= w[1].consume);
        }
    }
    assert_eq!(sorted[0].consume, 7);
    assert_eq!(sorted[1].consume, 9);
    assert_eq!(sorted[2].consume, 4);
}

fn sort_delays_helper(v: Vec<Delay>) -> Vec<Delay> {
    rustspeedtest::scanner::sort_delays(v)
}

#[test]
fn route_classification_cases() {
    let code = |s: &str| Some(s.as_bytes().to_vec());
    let (status, kept) = classify_route(&vec![code("SJC"), code("SJC")]);
    assert_eq!(status, RouteStatus::Normal);
    assert_eq!(kept, b"SJC".to_vec());

    let (status, _) = classify_route(&vec![code("SJC"), code("LAX")]);
    assert_eq!(status, RouteStatus::DiffLocation);

    let (status, kept) = classify_route(&vec![None, None]);
    assert_eq!(status, RouteStatus::NoLocation);
    assert!(kept.is_empty());

    // a failed probe between two agreeing ones changes nothing
    let (status, _) = classify_route(&vec![None, code("FRA"), None, code("FRA")]);
    assert_eq!(status, RouteStatus::Normal);
}

#[test]
fn route_order_ranks_consistent_first() {
    let rec = |o: u8, status: RouteStatus| CFCDNCheckResult {
        ip: v4(1, 1, 1, o),
        route_status: status,
        location_code: b"SJC".to_vec(),
    };
    let sorted = sort_routes(vec![
        rec(9, RouteStatus::NoLocation),
        rec(2, RouteStatus::DiffLocation),
        rec(7, RouteStatus::Normal),
        rec(1, RouteStatus::Normal),
    ]);
    assert_eq!(sorted[0].route_status, RouteStatus::Normal);
    assert_eq!(sorted[0].ip, v4(1, 1, 1, 1));
    assert_eq!(sorted[1].route_status, RouteStatus::Normal);
    assert_eq!(sorted[2].route_status, RouteStatus::DiffLocation);
    assert_eq!(sorted[3].route_status, RouteStatus::NoLocation);
}

#[test]
fn speed_order_ranks_throughput_first() {
    let rec = |o: u8, bytes: u64| Speed { ip: v4(5, 0, 0, o), total_download: bytes, consume_ms: 1000 };
    let sorted = sort_speeds(vec![rec(1, 10), rec(2, 500), rec(3, 90)]);
    assert_eq!(sorted[0].total_download, 500);
    assert_eq!(sorted[1].total_download, 90);
    assert_eq!(sorted[2].total_download, 10);
}

#[test]
fn download_stops_at_min_available() {
    let rec = |o: u8| Speed { ip: v4(9, 0, 0, o), total_download: 1, consume_ms: 1 };
    let results = vec![Some(rec(1)), None, Some(rec(2)), Some(rec(3)), Some(rec(4))];
    let (kept, attempted) = collect_downloads(&results, 2);
    assert_eq!(kept.len(), 2);
    assert_eq!(attempted, 3);

    // a bound of zero still stops at the first success
    let (kept, attempted) = collect_downloads(&results, 0);
    assert_eq!(kept.len(), 1);
    assert_eq!(attempted, 1);

    // a bound beyond the successes walks the whole list
    let (kept, attempted) = collect_downloads(&results, 10);
    assert_eq!(kept.len(), 4);
    assert_eq!(attempted, 5);
}

#[test]
fn pool_keeps_concurrency_bounded() {
    let mut pool = ProbePool::new(10, 3);
    assert_eq!(pool.launched, 3);
    let mut completions = 0;
    while pool.completed < pool.total {
        assert!(pool.launched - pool.completed <= pool.batch);
        pool.on_completion();
        completions += 1;
    }
    assert_eq!(completions, 10);
    assert_eq!(pool.launched, 10);

    // fewer inputs than the bound never over-launches either
    let pool = ProbePool::new(2, 8);
    assert_eq!(pool.launched, 2);
}

#[test]
fn csv_rows_start_with_the_address() {
    let ips = vec![v4(1, 0, 0, 1), v4(9, 8, 7, 6)];
    let delays = vec![
        Delay { ip: v4(1, 0, 0, 1), consume: 12_000_000, success: 3 },
        Delay { ip: v4(9, 8, 7, 6), consume: 7_000_000, success: 4 },
    ];
    let routes = vec![CFCDNCheckResult {
        ip: v4(1, 0, 0, 1),
        route_status: RouteStatus::Normal,
        location_code: b"SJC".to_vec(),
    }];
    let speeds = vec![Speed { ip: v4(9, 8, 7, 6), total_download: 1048576, consume_ms: 1000 }];
    let csv = build_csv(
        &ips,
        &Some(Delay::to_map(delays)),
        &Some(CFCDNCheckResult::to_map(routes)),
        &Some(Speed::to_map(speeds)),
        4,
    );
    let text = String::from_utf8(csv.clone()).unwrap();
    assert_eq!(
        text,
        "IP,Loss,Delay(ms),Status,Area,Speed(MB/s)\n\
         1.0.0.1,0.3,12,Normal,SJC\n\
         9.8.7.6,0.0,7,1.00\n"
    );
    // every emitted row parses back to its address
    let lines = split_on_byte(&csv, 10);
    assert_eq!(lines.len(), ips.len() + 2);
    for (i, ip) in ips.iter().enumerate() {
        let fields = split_on_byte(&lines[i + 1], 44);
        assert_eq!(fields[0], ip.text_bytes());
    }
}

#[test]
fn csv_escapes_line_breaks_in_codes() {
    // a code holding a line break cannot split its row
    let ips = vec![v4(8, 8, 8, 8)];
    let routes = vec![CFCDNCheckResult {
        ip: v4(8, 8, 8, 8),
        route_status: RouteStatus::Normal,
        location_code: vec![83, 10, 67],
    }];
    let csv = build_csv(&ips, &None, &Some(CFCDNCheckResult::to_map(routes)), &None, 4);
    let lines = split_on_byte(&csv, 10);
    assert_eq!(lines.len(), 3);
    assert_eq!(String::from_utf8(lines[1].clone()).unwrap(), "8.8.8.8,Normal,S?C");
}
