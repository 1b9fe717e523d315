//! The behaviour the first users relied on, checked end to end.
use rustspeedtest::addr::IpAddress;
use rustspeedtest::cidr::parse_addresses;
use rustspeedtest::cidr::parse_addresses_from_opt;
use rustspeedtest::input::HttpScanOptions;
use rustspeedtest::input::Opts;
use rustspeedtest::input::RequestHttpHeader;
use rustspeedtest::scan_http::ScanHttp;
use rustspeedtest::scanner::Delay;
use rustspeedtest::scanner::Scanner;
use rustspeedtest::scanner::sort_delays;
use rustspeedtest::utils::get_domain_from_url;
use rustspeedtest::utils::human_readable_size;

#[test]
fn parse_cidr() {
    let cidr_str = "192.168.1.1/24";
    let ips = parse_addresses(cidr_str);
    assert!(ips.len() == 256);
}

#[test]
fn parse_nothing_string() {
    let cidr_str = "# nothing";
    let ips = parse_addresses(cidr_str);
    assert!(ips.len() == 0);
}

#[test]
fn test_human_readable_size() {
    assert_eq!(human_readable_size(0), "0.00 B");
    assert_eq!(human_readable_size(100), "100.00 B");
    assert_eq!(human_readable_size(1024), "1.00 KB");
    assert_eq!(human_readable_size(1048576), "1.00 MB");
    assert_eq!(human_readable_size(1073741824), "1.00 GB");
    assert_eq!(human_readable_size(1099511627776), "1.00 TB");
    assert_eq!(human_readable_size(1125899906842624), "1.00 PB");
    assert_eq!(human_readable_size(1152921504606846976), "1.00 EB");
    assert_eq!(human_readable_size(1180591620717411303424), "1.00 ZB");
    assert_eq!(human_readable_size(1208925819614629174706176), "1.00 YB");
}

#[test]
fn test_get_domain_from_url() {
    let result = get_domain_from_url("https://127.0.0.1/");
    assert!(result.is_err());

    let result = get_domain_from_url("mailto:rms@example.net");
    assert!(result.is_err());

    let result = get_domain_from_url("https://example.com/");
    assert!(result.is_ok());
}

#[test]
fn main_test_parse_addresses_from_opt() {
    let mut opts = Opts::default();
    opts.random_number = 0;
    opts.address = vec!["192.168.1.1/24".to_string(), "192.168.1.1/28".to_string()];

    let ips = parse_addresses_from_opt(&opts);
    assert_eq!(ips.len(), 256);

    opts.random_number = 50;
    let ips = parse_addresses_from_opt(&opts);
    assert_eq!(ips.len(), opts.random_number);

    opts.random_number = 9999;
    let ips = parse_addresses_from_opt(&opts);
    assert_eq!(ips.len(), 256);
}

#[test]
fn mod_test_parse_addresses_from_opt() {
    let mut opts = Opts::default();
    opts.address = vec!["192.168.1.0/24".to_string(), "10.0.0.0/8".to_string()];
    opts.random_number = 0;
    let result = parse_addresses_from_opt(&opts);
    assert_eq!(result.len(), 16777472);

    let mut opts = Opts::default();
    opts.address = vec!["192.168.1.0/24".to_string()];
    opts.random_number = 50;
    let result = parse_addresses_from_opt(&opts);
    assert_eq!(result.len(), 50);

    let mut opts = Opts::default();
    opts.address = vec!["192.168.1.0/24".to_string(), "10.0.0.0/8".to_string()];
    opts.random_number = 50;
    let result = parse_addresses_from_opt(&opts);
    assert_eq!(result.len(), 50);
}

#[test]
fn test_config() {
    let scan = Scanner::new(
        vec![IpAddress::parse("192.168.1.1").unwrap()],
        0,
        0,
        0,
        0,
        9999,
        0,
    );

    assert!(scan.batch_size > 0);
    assert!(scan.timeout_ms > 0);
    assert_eq!(scan.times, 1);
    assert!(scan.port > 0);
}

#[test]
fn test_delay_sort() {
    let delay1 = Delay {
        ip: IpAddress::parse("127.0.0.1").unwrap(),
        consume: 1_000_000_000,
        success: 0,
    };

    let delay2 = Delay {
        ip: IpAddress::parse("127.0.0.2").unwrap(),
        consume: 2_000_000_000,
        success: 1,
    };

    let delay3 = Delay {
        ip: IpAddress::parse("127.0.0.3").unwrap(),
        consume: 3_000_000_000,
        success: 2,
    };

    let delay4 = Delay {
        ip: IpAddress::parse("127.0.0.4").unwrap(),
        consume: 5_000_000_000,
        success: 2,
    };

    let delays = sort_delays(vec![delay1, delay2, delay3, delay4]);
    assert!(delays[0].eq(&delay3));
    assert!(delays[1].eq(&delay4));
    assert!(delays[2].eq(&delay2));
    assert!(delays[3].eq(&delay1));
}

#[test]
fn test_format_request() {
    let opts = HttpScanOptions {
        method: String::from("POST"),
        path: String::from("/submit?name=foo&age=20"),
        headers: vec![
            RequestHttpHeader {
                key: String::from("X-Custom-Header"),
                val: String::from("my-custom-value"),
            },
            RequestHttpHeader {
                key: String::from("Accept-Encoding"),
                val: String::from("gzip, deflate"),
            },
        ],
        resp_header_match: None,
        resp_header_filter: None,
    };
    let scan_http = ScanHttp::new(opts);

    let addr = IpAddress::V4(u32::from(192u32) << 24 | 0 << 16 | 2 << 8 | 1);
    let request = scan_http.format_request(&addr, 80);

    assert_eq!(
        String::from_utf8(request).unwrap(),
        "POST /submit?name=foo&age=20 HTTP/1.1\r\n\
            X-Custom-Header: my-custom-value\r\n\
            Accept-Encoding: gzip, deflate\r\n\
            Host: 192.0.2.1:80\r\n\
            \r\n"
    );

    let opts = HttpScanOptions {
        method: String::from("GET"),
        path: String::from("/"),
        headers: vec![RequestHttpHeader {
            key: String::from(r#"User-Agent"#),
            val: String::from(r#"Mozilla/4.0 (compatible; MSIE 8.0; Windows NT 6.0)"#),
        }],
        resp_header_match: None,
        resp_header_filter: None,
    };
    let scan_http = ScanHttp::new(opts);
    let addr = IpAddress::V4(192u32 << 24 | 0 << 16 | 2 << 8 | 1);
    let request = scan_http.format_request(&addr, 443);

    assert_eq!(
        String::from_utf8(request).unwrap(),
        "GET / HTTP/1.1\r\n\
            User-Agent: Mozilla/4.0 (compatible; MSIE 8.0; Windows NT 6.0)\r\n\
            Host: 192.0.2.1:443\r\n\
            \r\n"
    );
}

#[test]
fn test_trim_ascii_whitespace() {
    assert_eq!(ScanHttp::trim_ascii_whitespace(b"  \t   "), b"");

    assert_eq!(
        ScanHttp::trim_ascii_whitespace(b"  \t  hello world  \n "),
        b"hello world"
    );

    assert_eq!(ScanHttp::trim_ascii_whitespace(b"a"), b"a");

    assert_eq!(
        ScanHttp::trim_ascii_whitespace(b"hello   world!"),
        b"hello   world!"
    );

    assert_eq!(ScanHttp::trim_ascii_whitespace(b""), b"");

    assert_eq!(
        ScanHttp::trim_ascii_whitespace(b"  \t  hello123  \n "),
        b"hello123"
    );
}
