//! TCP latency scanning: per-address aggregation of connect attempts,
//! the configuration defaults, the latency filter, and the latency order.
use vstd::prelude::*;
use vstd::relations::sorted_by;

use crate::addr::IpAddress;
use crate::addr::addr_le;
use crate::sorting::Ranked;

verus! {

/// One timed connect attempt: either it connected after the given number
/// of nanoseconds, or it failed (refused or timed out).
#[derive(Clone, Copy, PartialEq, Eq, Structural, Debug)]
pub enum AttemptOutcome {
    Connected(u64),
    Failed,
}

/// A latency record: mean round-trip time over the successful connect
/// attempts, in nanoseconds, and how many attempts succeeded.
#[derive(Clone, Copy, PartialEq, Eq, Structural, Debug)]
pub struct Delay {
    pub ip: IpAddress,
    /// Mean elapsed time of the successful attempts, in nanoseconds;
    /// zero when no attempt succeeded.
    pub consume: u64,
    /// Number of successful attempts.
    pub success: u8,
}

/// Number of successful attempts in a sequence of outcomes.
pub open spec fn success_count(s: Seq<AttemptOutcome>) -> nat
    decreases s.len(),
{
    if s.len() == 0 {
        0
    } else {
        success_count(s.drop_last()) + (if s.last() is Connected {
            1nat
        } else {
            0nat
        })
    }
}

/// Sum of the elapsed times of the successful attempts.
pub open spec fn total_elapsed(s: Seq<AttemptOutcome>) -> nat
    decreases s.len(),
{
    if s.len() == 0 {
        0
    } else {
        total_elapsed(s.drop_last()) + (match s.last() {
            AttemptOutcome::Connected(e) => e as nat,
            AttemptOutcome::Failed => 0nat,
        })
    }
}

/// Folds the outcomes of the attempts against one address into its
/// latency record: the count of successes and the mean elapsed time over
/// them, zero when none succeeded.
pub fn aggregate_attempts(ip: IpAddress, outcomes: &Vec<AttemptOutcome>) -> (d: Delay)
    requires
        outcomes@.len() <= 255,
    ensures
        d.ip == ip,
        d.success as nat == success_count(outcomes@),
        d.consume as nat == if success_count(outcomes@) == 0 {
            0nat
        } else {
            total_elapsed(outcomes@) / success_count(outcomes@)
        },
{
    let n: usize = outcomes.len();
    let mut total: u128 = 0;
    let mut cnt: u8 = 0;
    let mut i: usize = 0;
    while i < n
        invariant
            0 <= i <= n <= 255,
            n == outcomes@.len(),
            cnt as nat == success_count(outcomes@.take(i as int)),
            total as nat == total_elapsed(outcomes@.take(i as int)),
            cnt <= i,
            total as nat <= (cnt as nat) * 0xffff_ffff_ffff_ffffnat,
        decreases n - i,
    {
        let ghost pre = outcomes@.take(i as int);
        proof {
            assert(outcomes@.take(i + 1).drop_last() =~= pre);
            assert(outcomes@.take(i + 1).last() == outcomes@[i as int]);
        }
        match outcomes[i] {
            AttemptOutcome::Connected(e) => {
                proof {
                    assert(total as nat + e as nat <= (cnt as nat + 1)
                        * 0xffff_ffff_ffff_ffffnat) by (nonlinear_arith)
                        requires
                            total as nat <= (cnt as nat) * 0xffff_ffff_ffff_ffffnat,
                            e as nat <= 0xffff_ffff_ffff_ffffnat,
                    ;
                }
                total = total + (e as u128);
                cnt = cnt + 1;
            },
            AttemptOutcome::Failed => {},
        }
        i = i + 1;
    }
    proof {
        assert(outcomes@.take(n as int) =~= outcomes@);
    }
    if cnt == 0 {
        Delay { ip, consume: 0, success: 0 }
    } else {
        let mean: u128 = total / (cnt as u128);
        proof {
            assert(total as nat / cnt as nat <= 0xffff_ffff_ffff_ffffnat) by (nonlinear_arith)
                requires
                    total as nat <= (cnt as nat) * 0xffff_ffff_ffff_ffffnat,
                    cnt as nat >= 1,
            ;
        }
        Delay { ip, consume: mean as u64, success: cnt }
    }
}

/// The latency order: records without a success come last; among the
/// rest, more successful attempts first, then lower mean round-trip
/// time, then the address order, so that any two records are related.
impl Ranked for Delay {
    open spec fn leq(a: Delay, b: Delay) -> bool {
        if (a.success == 0) != (b.success == 0) {
            b.success == 0
        } else if a.success != b.success {
            a.success > b.success
        } else if a.consume != b.consume {
            a.consume < b.consume
        } else {
            addr_le(a.ip, b.ip)
        }
    }

    proof fn lemma_leq_total(a: Delay, b: Delay) {
    }

    proof fn lemma_leq_trans(a: Delay, b: Delay, c: Delay) {
    }

    fn leq_exec(&self, other: &Delay) -> (r: bool) {
        let a = self;
        let b = other;
        if (a.success == 0) != (b.success == 0) {
            b.success == 0
        } else if a.success != b.success {
            a.success > b.success
        } else if a.consume != b.consume {
            a.consume < b.consume
        } else {
            crate::addr::addr_le_exec(&a.ip, &b.ip)
        }
    }
}

/// Ranks latency records: see the order on `Delay`.
pub fn sort_delays(v: Vec<Delay>) -> (r: Vec<Delay>)
    ensures
        sorted_by(r@, |a: Delay, b: Delay| Delay::leq(a, b)),
        r@.to_multiset() == v@.to_multiset(),
{
    crate::sorting::sort_ranked(v)
}

/// In a ranked sequence of latency records, every record without a
/// successful attempt stands after every record with one, and among
/// records with the same number of successes the mean round-trip times
/// are non-decreasing.
pub proof fn lemma_latency_ranking(s: Seq<Delay>)
    requires
        sorted_by(s, |a: Delay, b: Delay| Delay::leq(a, b)),
    ensures
        forall|i: int, j: int|
            0 <= i < j < s.len() && #[trigger] s[i].success == 0 ==> #[trigger] s[j].success == 0,
        forall|i: int, j: int|
            0 <= i < j < s.len() && #[trigger] s[i].success == #[trigger] s[j].success
                && s[i].success > 0 ==> s[i].consume <= s[j].consume,
{
    let ord = |a: Delay, b: Delay| Delay::leq(a, b);
    assert forall|i: int, j: int|
        0 <= i < j < s.len() && #[trigger] s[i].success == 0 implies #[trigger] s[j].success
        == 0 by {
        assert(ord(s[i], s[j]));
    }
    assert forall|i: int, j: int|
        0 <= i < j < s.len() && #[trigger] s[i].success == #[trigger] s[j].success && s[i].success
        > 0 implies s[i].consume <= s[j].consume by {
        assert(ord(s[i], s[j]));
    }
}

/// Where all successful records carry the same number of successes,
/// the ranking sorts exactly by mean round-trip time: failures strictly
/// last, times non-decreasing among the rest.  With mixed success
/// counts the order prefers more samples over a lower mean, so the
/// bound on the means holds per success count, as the lemma above
/// states.
pub proof fn lemma_latency_ranking_uniform(s: Seq<Delay>)
    requires
        sorted_by(s, |a: Delay, b: Delay| Delay::leq(a, b)),
        forall|i: int, j: int|
            0 <= i < s.len() && 0 <= j < s.len() && #[trigger] s[i].success > 0
                && #[trigger] s[j].success > 0 ==> s[i].success == s[j].success,
    ensures
        forall|i: int, j: int|
            0 <= i < j < s.len() && #[trigger] s[i].success == 0 ==> #[trigger] s[j].success == 0,
        forall|i: int, j: int|
            0 <= i < j < s.len() && #[trigger] s[i].success > 0 && #[trigger] s[j].success > 0
                ==> s[i].consume <= s[j].consume,
{
    let ord = |a: Delay, b: Delay| Delay::leq(a, b);
    lemma_latency_ranking(s);
    assert forall|i: int, j: int|
        0 <= i < j < s.len() && #[trigger] s[i].success > 0 && #[trigger] s[j].success
        > 0 implies s[i].consume <= s[j].consume by {
        assert(s[i].success == s[j].success);
        assert(ord(s[i], s[j]));
    }
}

/// Mean round-trip time in whole milliseconds.
pub open spec fn delay_millis(d: Delay) -> nat {
    (d.consume as nat) / 1000000
}

/// The latency filter: a record is kept when its mean round-trip time in
/// milliseconds lies strictly between the lower and the upper bound.
pub open spec fn keep_delay(d: Delay, upper: u128, lower: u128) -> bool {
    lower < delay_millis(d) < upper
}

/// Drops the records whose mean round-trip time lies outside the
/// configured bounds.
pub fn filter_delays(v: Vec<Delay>, upper: u128, lower: u128) -> (r: Vec<Delay>)
    ensures
        r@ == v@.filter(|d: Delay| keep_delay(d, upper, lower)),
{
    let n: usize = v.len();
    let mut out: Vec<Delay> = Vec::new();
    let mut i: usize = 0;
    proof {
        reveal(Seq::filter);
    }
    while i < n
        invariant
            0 <= i <= n,
            n == v@.len(),
            out@ == v@.take(i as int).filter(|d: Delay| keep_delay(d, upper, lower)),
        decreases n - i,
    {
        let ghost pred = |d: Delay| keep_delay(d, upper, lower);
        let ghost pre = v@.take(i as int);
        proof {
            reveal(Seq::filter);
            assert(v@.take(i + 1).drop_last() =~= pre);
            assert(v@.take(i + 1).last() == v@[i as int]);
        }
        let d: Delay = v[i];
        let ms: u64 = d.consume / 1000000;
        if (lower < ms as u128) && ((ms as u128) < upper) {
            out.push(d);
        }
        i = i + 1;
    }
    proof {
        assert(v@.take(n as int) =~= v@);
    }
    out
}

/// The scanner configuration; zero values fall back to usable defaults:
/// one probe at a time, one attempt, port 80 and a ten-millisecond
/// timeout.
#[derive(Debug)]
pub struct Scanner {
    pub ips: Vec<IpAddress>,
    pub batch_size: usize,
    pub times: u8,
    pub timeout_ms: u64,
    pub port: u16,
    pub avg_delay_upper: u128,
    pub avg_delay_lower: u128,
}

impl Scanner {
    pub fn new(
        ips: Vec<IpAddress>,
        batch_size: usize,
        timeout_ms: u64,
        times: u8,
        port: u16,
        avg_delay_upper: u128,
        avg_delay_lower: u128,
    ) -> (s: Scanner)
        ensures
            s.ips == ips,
            s.batch_size == if batch_size == 0 {
                1usize
            } else {
                batch_size
            },
            s.times == if times == 0 {
                1u8
            } else {
                times
            },
            s.port == if port == 0 {
                80u16
            } else {
                port
            },
            s.timeout_ms == if timeout_ms == 0 {
                10u64
            } else {
                timeout_ms
            },
            s.avg_delay_upper == avg_delay_upper,
            s.avg_delay_lower == avg_delay_lower,
    {
        Scanner {
            ips,
            batch_size: if batch_size == 0 {
                1
            } else {
                batch_size
            },
            times: if times == 0 {
                1
            } else {
                times
            },
            timeout_ms: if timeout_ms == 0 {
                10
            } else {
                timeout_ms
            },
            port: if port == 0 {
                80
            } else {
                port
            },
            avg_delay_upper,
            avg_delay_lower,
        }
    }
}

/// A connect error that must abort the whole run: the process ran out of
/// file descriptors, so the configured batch size cannot be served.
pub fn is_fatal_connect_error(msg: &[u8]) -> (r: bool)
    ensures
        r == crate::text::contains_seq(
            msg@.map_values(|b: u8| crate::text::lower_byte(b)),
            "too many open files"@.map_values(|c: char| c as u8),
        ),
{
    let lowered: Vec<u8> = crate::text::to_lower_bytes(msg);
    let pat: &[u8] = "too many open files".as_bytes();
    proof {
        reveal_strlit("too many open files");
        assert(vstd::string::is_ascii("too many open files"));
        vstd::string::is_ascii_spec_bytes("too many open files");
        assert(pat@ =~= "too many open files"@.map_values(|c: char| c as u8));
    }
    crate::text::contains_bytes(lowered.as_slice(), pat)
}

} // verus!
