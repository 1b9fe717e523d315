//! The download speed meter's decisions: folding the streamed chunks of
//! one response into a byte count, keeping the first success of the
//! tries against one address, cutting the run short once enough
//! addresses succeeded, and ranking the records.
use vstd::prelude::*;
use vstd::relations::sorted_by;
use vstd::string::StringSliceAdditionalSpecFns;

use crate::addr::IpAddress;
use crate::addr::addr_le;
use crate::sorting::Ranked;

verus! {

/// A download record: how many bytes came through and how long the
/// transfer ran, in milliseconds.
#[derive(Clone, Copy, PartialEq, Eq, Structural, Debug)]
pub struct Speed {
    pub ip: IpAddress,
    pub total_download: u64,
    pub consume_ms: u64,
}

/// The speed order: more bytes first, ties broken by the address
/// order.
impl Ranked for Speed {
    open spec fn leq(a: Speed, b: Speed) -> bool {
        if a.total_download != b.total_download {
            a.total_download > b.total_download
        } else {
            addr_le(a.ip, b.ip)
        }
    }

    proof fn lemma_leq_total(a: Speed, b: Speed) {
    }

    proof fn lemma_leq_trans(a: Speed, b: Speed, c: Speed) {
    }

    fn leq_exec(&self, other: &Speed) -> (r: bool) {
        if self.total_download != other.total_download {
            self.total_download > other.total_download
        } else {
            crate::addr::addr_le_exec(&self.ip, &other.ip)
        }
    }
}

/// Ranks download records: see the order on `Speed`.
pub fn sort_speeds(v: Vec<Speed>) -> (r: Vec<Speed>)
    ensures
        sorted_by(r@, |a: Speed, b: Speed| Speed::leq(a, b)),
        r@.to_multiset() == v@.to_multiset(),
{
    crate::sorting::sort_ranked(v)
}

/// One event while streaming a response body: a data chunk of some
/// size, or a read error with its message.
pub enum ChunkEvent {
    Data(usize),
    ReadError(Vec<u8>),
}

/// A read error that only means the read timeout cut the stream: the
/// stopping rule for large downloads, not a failure.
pub open spec fn graceful_stop(msg: Seq<u8>) -> bool {
    crate::text::contains_seq(msg, "timed out"@.map_values(|c: char| c as u8))
}

/// Tests whether a read error message names a timeout.
pub fn is_graceful_stop(msg: &[u8]) -> (r: bool)
    ensures
        r == graceful_stop(msg@),
{
    let pat: &[u8] = "timed out".as_bytes();
    proof {
        reveal_strlit("timed out");
        assert(vstd::string::is_ascii("timed out"));
        vstd::string::is_ascii_spec_bytes("timed out");
        assert(pat@ =~= "timed out"@.map_values(|c: char| c as u8));
    }
    crate::text::contains_bytes(msg, pat)
}

/// What a stream of chunk events amounts to: the bytes received up to
/// its end or up to a timeout (`Ok`), or the position of the first
/// fatal read error (`Err`).
pub open spec fn tally_spec(events: Seq<ChunkEvent>) -> Result<nat, int>
    decreases events.len(),
{
    if events.len() == 0 {
        Ok(0nat)
    } else {
        match events[0] {
            ChunkEvent::Data(n) => match tally_spec(events.skip(1)) {
                Ok(b) => Ok((n as nat) + b),
                Err(e) => Err(e + 1),
            },
            ChunkEvent::ReadError(msg) => if graceful_stop(msg@) {
                Ok(0nat)
            } else {
                Err(0int)
            },
        }
    }
}

/// Folds the chunk events of one response: sums the data, stops
/// counting at a timeout, and reports the position of any other read
/// error.
pub fn process_chunks(events: &Vec<ChunkEvent>) -> (r: Result<u128, usize>)
    ensures
        match r {
            Ok(bytes) => tally_spec(events@) == Ok::<nat, int>(bytes as nat),
            Err(at) => tally_spec(events@) == Err::<nat, int>(at as int),
        },
{
    let n: usize = events.len();
    let mut sum: u128 = 0;
    let mut i: usize = 0;
    proof {
        assert(events@.skip(0) =~= events@);
    }
    while i < n
        invariant
            0 <= i <= n,
            n == events@.len(),
            sum as nat <= (i as nat) * 0xffff_ffff_ffff_ffffnat,
            tally_spec(events@) == match tally_spec(events@.skip(i as int)) {
                Ok(b) => Ok::<nat, int>((sum as nat) + b),
                Err(e) => Err::<nat, int>(e + i),
            },
        decreases n - i,
    {
        proof {
            assert(events@.skip(i as int)[0] == events@[i as int]);
            assert(events@.skip(i as int).skip(1) =~= events@.skip(i + 1));
        }
        match &events[i] {
            ChunkEvent::Data(sz) => {
                proof {
                    assert((sum as nat) + (*sz as nat) <= ((i as nat) + 1)
                        * 0xffff_ffff_ffff_ffffnat) by (nonlinear_arith)
                        requires
                            sum as nat <= (i as nat) * 0xffff_ffff_ffff_ffffnat,
                            (*sz as nat) <= 0xffff_ffff_ffff_ffffnat,
                    ;
                    assert((i as nat) * 0xffff_ffff_ffff_ffffnat <= 0xffff_ffff_ffff_ffffnat
                        * 0xffff_ffff_ffff_ffffnat) by (nonlinear_arith)
                        requires
                            (i as nat) <= 0xffff_ffff_ffff_ffffnat,
                    ;
                }
                sum = sum + (*sz as u128);
            },
            ChunkEvent::ReadError(msg) => {
                if is_graceful_stop(msg.as_slice()) {
                    return Ok(sum);
                } else {
                    return Err(i);
                }
            },
        }
        i = i + 1;
    }
    proof {
        assert(events@.skip(n as int) =~= Seq::<ChunkEvent>::empty());
    }
    Ok(sum)
}

/// The first try that produced a record, if any did.
pub open spec fn first_success_spec(tries: Seq<Option<Speed>>) -> Option<Speed>
    decreases tries.len(),
{
    if tries.len() == 0 {
        None
    } else if tries[0] is Some {
        tries[0]
    } else {
        first_success_spec(tries.skip(1))
    }
}

/// Keeps the first successful try against one address.
pub fn first_success(tries: &Vec<Option<Speed>>) -> (r: Option<Speed>)
    ensures
        r == first_success_spec(tries@),
{
    let n: usize = tries.len();
    let mut i: usize = 0;
    proof {
        assert(tries@.skip(0) =~= tries@);
    }
    while i < n
        invariant
            0 <= i <= n,
            n == tries@.len(),
            first_success_spec(tries@) == first_success_spec(tries@.skip(i as int)),
        decreases n - i,
    {
        proof {
            assert(tries@.skip(i as int)[0] == tries@[i as int]);
            assert(tries@.skip(i as int).skip(1) =~= tries@.skip(i + 1));
        }
        match &tries[i] {
            Some(s) => {
                return Some(*s);
            },
            None => {},
        }
        i = i + 1;
    }
    None
}

/// What the download run keeps: walking the per-address results in
/// order, every success is kept until their number reaches
/// `min_available` (a bound of zero already stops at the first
/// success); the second component is how many addresses were
/// attempted.
pub open spec fn collect_spec(results: Seq<Option<Speed>>, min_available: nat) -> (Seq<Speed>, nat)
    decreases results.len(),
{
    if results.len() == 0 {
        (Seq::empty(), 0nat)
    } else {
        match results[0] {
            None => {
                let (k, a) = collect_spec(results.skip(1), min_available);
                (k, a + 1)
            },
            Some(s) => {
                if min_available <= 1 {
                    (seq![s], 1nat)
                } else {
                    let (k, a) = collect_spec(results.skip(1), (min_available - 1) as nat);
                    (seq![s] + k, a + 1)
                }
            },
        }
    }
}

/// Walks the per-address download results in order and keeps each
/// success, stopping as soon as `min_available` of them are gathered.
/// Gives back the records kept and how many addresses were attempted.
pub fn collect_downloads(results: &Vec<Option<Speed>>, min_available: usize) -> (r: (
    Vec<Speed>,
    usize,
))
    ensures
        r.0@ == collect_spec(results@, min_available as nat).0,
        r.1 == collect_spec(results@, min_available as nat).1,
{
    let n: usize = results.len();
    let mut kept: Vec<Speed> = Vec::new();
    let mut i: usize = 0;
    proof {
        assert(results@.skip(0) =~= results@);
    }
    while i < n
        invariant
            0 <= i <= n,
            n == results@.len(),
            kept@.len() <= i,
            min_available > 0 ==> kept@.len() < min_available,
            min_available == 0 ==> kept@.len() == 0,
            collect_spec(results@, min_available as nat) == {
                let (k, a) = collect_spec(
                    results@.skip(i as int),
                    (min_available - kept@.len()) as nat,
                );
                (kept@ + k, (i as nat) + a)
            },
        decreases n - i,
    {
        proof {
            assert(results@.skip(i as int)[0] == results@[i as int]);
            assert(results@.skip(i as int).skip(1) =~= results@.skip(i + 1));
        }
        match &results[i] {
            Some(s) => {
                kept.push(*s);
                if kept.len() >= min_available {
                    proof {
                        assert(kept@ =~= kept@.drop_last() + seq![*s]);
                        assert(collect_spec(results@, min_available as nat) == (
                            kept@,
                            (i as nat) + 1,
                        ));
                    }
                    return (kept, i + 1);
                }
                proof {
                    assert(kept@ =~= kept@.drop_last() + seq![*s]);
                    assert(kept@.drop_last() + (seq![*s] + collect_spec(
                        results@.skip(i + 1),
                        (min_available - kept@.len()) as nat,
                    ).0) =~= kept@ + collect_spec(
                        results@.skip(i + 1),
                        (min_available - kept@.len()) as nat,
                    ).0);
                }
            },
            None => {},
        }
        i = i + 1;
    }
    proof {
        assert(results@.skip(n as int) =~= Seq::<Option<Speed>>::empty());
        assert(kept@ + Seq::<Speed>::empty() =~= kept@);
    }
    (kept, n)
}

/// Number of successes in a run of per-address results.
pub open spec fn success_total(results: Seq<Option<Speed>>) -> nat
    decreases results.len(),
{
    if results.len() == 0 {
        0
    } else {
        (if results[0] is Some {
            1nat
        } else {
            0nat
        }) + success_total(results.skip(1))
    }
}

/// The early exit of the download run: at most `min_available` records
/// are kept (one, when the bound is zero); no more addresses are
/// attempted than exist; the records kept are exactly the successes
/// among the attempted prefix; and the run stops before the end only
/// upon a success that fills the quota.
pub proof fn lemma_download_early_exit(results: Seq<Option<Speed>>, min_available: nat)
    ensures
        ({
            let (k, a) = collect_spec(results, min_available);
            &&& k.len() <= (if min_available == 0 {
                1nat
            } else {
                min_available
            })
            &&& a <= results.len()
            &&& k.len() == success_total(results.take(a as int))
            &&& (a < results.len() ==> k.len() == (if min_available == 0 {
                1nat
            } else {
                min_available
            }) && results[a - 1] is Some)
        }),
    decreases results.len(),
{
    if results.len() == 0 {
    } else {
        let (k, a) = collect_spec(results, min_available);
        match results[0] {
            None => {
                lemma_download_early_exit(results.skip(1), min_available);
                let (k1, a1) = collect_spec(results.skip(1), min_available);
                assert(k == k1 && a == a1 + 1);
                assert(results.take(a as int)[0] is None);
                assert(results.take(a as int).skip(1) =~= results.skip(1).take(a1 as int));
                assert(success_total(results.take(a as int)) == success_total(
                    results.skip(1).take(a1 as int),
                ));
                if a < results.len() {
                    assert(a1 < results.skip(1).len());
                    assert(results[a - 1] == results.skip(1)[a1 - 1]);
                }
            },
            Some(s) => {
                if min_available <= 1 {
                    assert(k =~= seq![s] && a == 1);
                    assert(results.take(1)[0] is Some);
                    assert(results.take(1).skip(1) =~= Seq::<Option<Speed>>::empty());
                    assert(success_total(Seq::<Option<Speed>>::empty()) == 0);
                    assert(results.take(1).len() == 1);
                    assert(success_total(results.take(1)) == 1);
                    assert(results[0] is Some);
                } else {
                    lemma_download_early_exit(results.skip(1), (min_available - 1) as nat);
                    let (k1, a1) = collect_spec(results.skip(1), (min_available - 1) as nat);
                    assert(k == seq![s] + k1 && a == a1 + 1);
                    assert(k.len() == 1 + k1.len());
                    assert(results.take(a as int)[0] is Some);
                    assert(results.take(a as int).skip(1) =~= results.skip(1).take(a1 as int));
                    assert(success_total(results.take(a as int)) == 1 + success_total(
                        results.skip(1).take(a1 as int),
                    ));
                    if a < results.len() {
                        assert(a1 < results.skip(1).len());
                        assert(a1 >= 1) by {
                            if a1 == 0 {
                                assert(k1.len() == success_total(
                                    results.skip(1).take(0),
                                ));
                                assert(results.skip(1).take(0) =~= Seq::<Option<Speed>>::empty());
                                assert(k1.len() == 0);
                                assert(k1.len() == min_available - 1);
                            }
                        }
                        assert(results[a - 1] == results.skip(1)[a1 - 1]);
                    }
                }
            },
        }
    }
}

/// The download stage configuration.
pub struct Downloader {
    pub ips: Vec<IpAddress>,
    pub tries: u8,
    pub host: String,
    pub timeout_ms: u64,
    pub connect_timeout_ms: u64,
    pub port: u16,
    pub url: String,
    pub min_available: usize,
}

impl Downloader {
    pub fn new(
        ips: Vec<IpAddress>,
        tries: u8,
        host: String,
        timeout_ms: u64,
        connect_timeout_ms: u64,
        port: u16,
        url: String,
        min_available: usize,
    ) -> (d: Downloader)
        ensures
            d.ips == ips,
            d.tries == tries,
            d.host == host,
            d.timeout_ms == timeout_ms,
            d.connect_timeout_ms == connect_timeout_ms,
            d.port == port,
            d.url == url,
            d.min_available == min_available,
    {
        Downloader { ips, tries, host, timeout_ms, connect_timeout_ms, port, url, min_available }
    }
}

} // verus!
