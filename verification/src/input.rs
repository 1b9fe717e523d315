//! Run configuration as plain values.  Reading the command line itself
//! is left to the binary around the library; the library only holds the
//! settled options.
use vstd::prelude::*;
use vstd::string::StringSliceAdditionalSpecFns;

verus! {

/// Declares regex's compiled byte-pattern type so fields can hold it;
/// the value is opaque here.
#[verifier::external_type_specification]
#[verifier::external_body]
pub struct ExRegexBytes(regex::bytes::Regex);

/// One request header to send, already split into name and value.
#[derive(Debug, Clone)]
pub struct RequestHttpHeader {
    pub key: String,
    pub val: String,
}

/// Whether a pattern text compiles as a regular expression; a
/// function of the text alone.
pub uninterp spec fn regex_compiles(pattern: Seq<char>) -> bool;

/// Whether a compiled pattern matches a byte string; a function of the
/// pattern text and the haystack alone.
pub uninterp spec fn regex_match_of(pattern: Seq<char>, haystack: Seq<u8>) -> bool;

/// A pattern matched against response header values: the compiled
/// expression together with the text it was compiled from, so matches
/// can be spoken of as a function of that text.
#[derive(Debug, Clone)]
pub struct ResponseHttpHeaderRegex {
    pattern: String,
    val_regex: regex::bytes::Regex,
}

/// Declares regex::bytes::Regex::clone so derived clones of the
/// pattern struct compile; nothing is promised of the cloned value,
/// which stays opaque here.
pub assume_specification[ <regex::bytes::Regex as core::clone::Clone>::clone ](
    re: &regex::bytes::Regex,
) -> regex::bytes::Regex;

impl ResponseHttpHeaderRegex {
    /// The text this pattern was compiled from.
    pub closed spec fn spec_pattern(&self) -> Seq<char> {
        self.pattern@
    }

    /// Relies on regex's Regex::new: whether a pattern compiles
    /// depends on its text alone.  The compiled expression is stored
    /// beside the text it came from; this is the type's only
    /// constructor, so every value keeps that correspondence.
    #[verifier::external_body]
    pub fn compile(pattern: &str) -> (r: Result<ResponseHttpHeaderRegex, String>)
        ensures
            (r is Ok) == regex_compiles(pattern@),
            match r {
                Ok(c) => c.spec_pattern() == pattern@,
                Err(_) => true,
            },
    {
        match regex::bytes::Regex::new(pattern) {
            Ok(val_regex) => {
                Ok(ResponseHttpHeaderRegex { pattern: pattern.to_string(), val_regex })
            },
            Err(e) => Err(format!("Invalid regex {:?}: {}", pattern, e)),
        }
    }

    /// Relies on regex's Regex::is_match: which byte strings a
    /// compiled pattern matches is a function of the pattern text and
    /// the haystack alone, and the constructor compiled this value
    /// from its stored text.
    #[verifier::external_body]
    pub fn is_match(&self, haystack: &[u8]) -> (r: bool)
        ensures
            r == regex_match_of(self.spec_pattern(), haystack@),
    {
        self.val_regex.is_match(haystack)
    }
}

/// Options of the HTTP probe of the batch scanner.
#[derive(Debug, Clone)]
pub struct HttpScanOptions {
    pub method: String,
    pub path: String,
    pub headers: Vec<RequestHttpHeader>,
    pub resp_header_match: Option<ResponseHttpHeaderRegex>,
    pub resp_header_filter: Option<ResponseHttpHeaderRegex>,
}

/// Options of the plain TCP connect probe of the batch scanner.
#[derive(Debug, Clone)]
pub struct TcpConnectOptions {}

/// Which probe the batch scanner runs.
#[derive(Debug, Clone)]
pub enum ScanOptions {
    Http(HttpScanOptions),
    Tcp(TcpConnectOptions),
}

/// The settled run options.
#[derive(Debug)]
pub struct Opts {
    /// Concurrency: how many probes may be in flight at once.
    pub number: usize,
    /// Connect attempts per address in the latency stage.
    pub time: u8,
    /// Port of the latency stage.
    pub port: u16,
    /// How many ranked results to display; zero displays nothing.
    pub display: usize,
    /// Probe timeout in milliseconds.
    pub timeout: u64,
    /// Warm-up iterations before measuring.
    pub warmup: u8,
    /// Path of the CSV output file.
    pub output: String,
    /// Whether the download stage runs at all.
    pub enable_download: bool,
    /// How many addresses the download stage may report.
    pub download_number: usize,
    /// Port of the download stage.
    pub download_port: u16,
    /// Uniform sub-sample size over the candidate pool; zero keeps all.
    pub random_number: usize,
    /// Upper bound on the mean delay filter, milliseconds.
    pub au: u128,
    /// Lower bound on the mean delay filter, milliseconds.
    pub al: u128,
    /// URL the download stage fetches.
    pub download_url: String,
    /// Download read timeout in seconds.
    pub download_timeout: u64,
    /// Whether the routing-consistency stage runs.
    pub cfhttping: bool,
    /// Probes per address in the routing-consistency stage.
    pub check_times: u64,
    /// Whether the plain HTTP reachability stage runs.
    pub httping: bool,
    /// Candidate addresses: CIDRs, single addresses, or file contents.
    pub address: Vec<String>,
    /// Whether the kernel-submission batch scanner is used.
    pub enable_iouring: bool,
    /// Options of the batch scanner's probe.
    pub scan_opts: ScanOptions,
}

impl Default for Opts {
    /// The defaults of the command-line surface.
    fn default() -> (r: Opts)
        ensures
            r.number == 200,
            r.time == 4,
            r.port == 443,
            r.display == 10,
            r.timeout == 9999,
            r.warmup == 0,
            r.output@ == "result.csv"@,
            r.enable_download,
            r.download_number == 10,
            r.download_port == 443,
            r.random_number == 0,
            r.au == 9999,
            r.al == 0,
            r.download_url@ == "https://speed.cloudflare.com/__down?bytes=200000000"@,
            r.download_timeout == 5,
            !r.cfhttping,
            r.check_times == 10,
            !r.httping,
            r.address@.len() == 0,
            !r.enable_iouring,
            r.scan_opts is Tcp,
    {
        Opts {
            number: 200,
            time: 4,
            port: 443,
            display: 10,
            timeout: 9999,
            warmup: 0,
            output: "result.csv".to_owned(),
            enable_download: true,
            download_number: 10,
            download_port: 443,
            random_number: 0,
            au: 9999,
            al: 0,
            download_url: "https://speed.cloudflare.com/__down?bytes=200000000".to_owned(),
            download_timeout: 5,
            cfhttping: false,
            check_times: 10,
            httping: false,
            address: Vec::new(),
            enable_iouring: false,
            scan_opts: ScanOptions::Tcp(TcpConnectOptions {  }),
        }
    }
}

} // verus!
