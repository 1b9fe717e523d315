//! The result table: records keyed by address, and the CSV text that
//! reports one row per valid address with the columns of whichever
//! stages ran.
use vstd::prelude::*;
use vstd::string::StringSliceAdditionalSpecFns;

use crate::addr::IpAddress;
use crate::addr::addr_text;
use crate::addr::dec_digits;
use crate::download::Speed;
use crate::routes::CFCDNCheckResult;
use crate::routes::RouteStatus;
use crate::scanner::Delay;

verus! {

/// A record kind that describes one address.
pub trait Keyed: Sized {
    spec fn key(&self) -> IpAddress;

    fn key_exec(&self) -> (r: IpAddress)
        ensures
            r == self.key(),
    ;
}

impl Keyed for Delay {
    open spec fn key(&self) -> IpAddress {
        self.ip
    }

    fn key_exec(&self) -> (r: IpAddress) {
        self.ip
    }
}

impl Keyed for CFCDNCheckResult {
    open spec fn key(&self) -> IpAddress {
        self.ip
    }

    fn key_exec(&self) -> (r: IpAddress) {
        self.ip
    }
}

impl Keyed for Speed {
    open spec fn key(&self) -> IpAddress {
        self.ip
    }

    fn key_exec(&self) -> (r: IpAddress) {
        self.ip
    }
}

/// Records of one stage, keyed by the address each describes; at most
/// one record per address, later insertions replacing earlier ones.
pub struct IpRecordMap<T> {
    pub keys: Vec<IpAddress>,
    pub vals: Vec<T>,
}

impl<T: Keyed> IpRecordMap<T> {
    pub open spec fn wf(&self) -> bool {
        &&& self.keys@.len() == self.vals@.len()
        &&& self.keys@.no_duplicates()
        &&& forall|i: int| 0 <= i < self.vals@.len() ==> (#[trigger] self.vals@[i]).key()
            == self.keys@[i]
    }

    /// The record stored for an address, if one is.
    pub open spec fn spec_get(&self, ip: IpAddress) -> Option<T> {
        if self.keys@.contains(ip) {
            Some(self.vals@[self.keys@.index_of(ip)])
        } else {
            None
        }
    }

    pub fn new() -> (m: IpRecordMap<T>)
        ensures
            m.wf(),
            forall|ip: IpAddress| m.spec_get(ip) is None,
    {
        let m = IpRecordMap { keys: Vec::new(), vals: Vec::new() };
        proof {
            assert forall|ip: IpAddress| m.spec_get(ip) is None by {
                assert(!m.keys@.contains(ip));
            }
        }
        m
    }

    /// Stores a record under its address, replacing any earlier one.
    pub fn insert(&mut self, rec: T)
        requires
            old(self).wf(),
        ensures
            final(self).wf(),
            final(self).spec_get(rec.key()) == Some(rec),
            forall|ip: IpAddress|
                ip != rec.key() ==> final(self).spec_get(ip) == old(self).spec_get(ip),
    {
        let ip: IpAddress = rec.key_exec();
        let n: usize = self.keys.len();
        let mut i: usize = 0;
        while i < n
            invariant
                0 <= i <= n,
                n == self.keys@.len(),
                old(self).wf(),
                *self == *old(self),
                ip == rec.key(),
                forall|j: int| 0 <= j < i ==> self.keys@[j] != ip,
            decreases n - i,
        {
            if self.keys[i] == ip {
                let ghost pre = *self;
                self.vals.remove(i);
                self.vals.insert(i, rec);
                proof {
                    assert(self.vals@ =~= pre.vals@.update(i as int, rec));
                    assert(self.keys@.index_of(ip) == i) by {
                        let w = self.keys@.index_of(ip);
                        assert(self.keys@.contains(ip)) by {
                            assert(self.keys@[i as int] == ip);
                        }
                        if w != i {
                            assert(self.keys@[w] == self.keys@[i as int]);
                        }
                    }
                    assert forall|q: IpAddress|
                        q != rec.key() implies final(self).spec_get(q) == pre.spec_get(q) by {
                        if self.keys@.contains(q) {
                            let w = self.keys@.index_of(q);
                            assert(self.keys@[w] == q);
                            assert(w != i);
                        }
                    }
                }
                return ;
            }
            i = i + 1;
        }
        let ghost pre = *self;
        self.keys.push(ip);
        self.vals.push(rec);
        proof {
            assert(!pre.keys@.contains(ip));
            assert forall|j: int|
                0 <= j < self.vals@.len() implies (#[trigger] self.vals@[j]).key()
                == self.keys@[j] by {
                if j < pre.vals@.len() {
                    assert(self.vals@[j] == pre.vals@[j]);
                }
            }
            assert(self.keys@.no_duplicates()) by {
                assert forall|a: int, b: int|
                    0 <= a < b < self.keys@.len() implies self.keys@[a] != self.keys@[b] by {
                    if b < pre.keys@.len() {
                    } else {
                        assert(self.keys@[b] == ip);
                        assert(pre.keys@[a] == self.keys@[a]);
                        if self.keys@[a] == ip {
                            assert(pre.keys@.contains(ip));
                        }
                    }
                }
            }
            assert(self.keys@.index_of(ip) == pre.keys@.len()) by {
                let w = self.keys@.index_of(ip);
                assert(self.keys@.contains(ip)) by {
                    assert(self.keys@[pre.keys@.len() as int] == ip);
                }
                if w != pre.keys@.len() {
                    assert(self.keys@[w] == ip);
                    assert(pre.keys@[w] == ip);
                    assert(pre.keys@.contains(ip));
                }
            }
            assert forall|q: IpAddress|
                q != rec.key() implies final(self).spec_get(q) == pre.spec_get(q) by {
                if self.keys@.contains(q) {
                    let w = self.keys@.index_of(q);
                    assert(self.keys@[w] == q);
                    assert(w < pre.keys@.len());
                    assert(pre.keys@[w] == q);
                    assert(pre.keys@.contains(q));
                } else {
                    if pre.keys@.contains(q) {
                        let w = choose|w: int| 0 <= w < pre.keys@.len() && pre.keys@[w] == q;
                        assert(self.keys@[w] == q);
                        assert(self.keys@.contains(q));
                    }
                }
            }
        }
    }

    /// The record stored for an address.
    pub fn get(&self, ip: &IpAddress) -> (r: Option<&T>)
        requires
            self.wf(),
        ensures
            match r {
                Some(v) => self.spec_get(*ip) == Some(*v),
                None => self.spec_get(*ip) is None,
            },
    {
        let n: usize = self.keys.len();
        let mut i: usize = 0;
        while i < n
            invariant
                0 <= i <= n,
                n == self.keys@.len(),
                self.wf(),
                forall|j: int| 0 <= j < i ==> self.keys@[j] != *ip,
            decreases n - i,
        {
            if self.keys[i] == *ip {
                proof {
                    assert(self.keys@.contains(*ip)) by {
                        assert(self.keys@[i as int] == *ip);
                    }
                    let w = self.keys@.index_of(*ip);
                    assert(self.keys@[w] == *ip);
                    if w != i {
                        assert(self.keys@[w] == self.keys@[i as int]);
                    }
                }
                return Some(&self.vals[i]);
            }
            i = i + 1;
        }
        proof {
            if self.keys@.contains(*ip) {
                let w = choose|w: int| 0 <= w < self.keys@.len() && self.keys@[w] == *ip;
                assert(self.keys@[w] != *ip);
            }
        }
        None
    }
}

/// The record a sequence finally leaves under an address: its last
/// record with that address.
pub open spec fn last_with_key<T: Keyed>(s: Seq<T>, ip: IpAddress) -> Option<T>
    decreases s.len(),
{
    if s.len() == 0 {
        None
    } else if s.last().key() == ip {
        Some(s.last())
    } else {
        last_with_key(s.drop_last(), ip)
    }
}

/// Folds records into a map by their address, later records replacing
/// earlier ones with the same address.
pub fn to_record_map<T: Keyed>(records: Vec<T>) -> (m: IpRecordMap<T>)
    ensures
        m.wf(),
        forall|ip: IpAddress| #[trigger] m.spec_get(ip) == last_with_key(records@, ip),
{
    let ghost orig: Seq<T> = records@;
    let mut rest: Vec<T> = records;
    let mut m: IpRecordMap<T> = IpRecordMap::new();
    let ghost i: int = 0;
    proof {
        assert(rest@ == orig.skip(0));
        assert(orig.skip(0) =~= orig);
        assert forall|ip: IpAddress| #[trigger] m.spec_get(ip) == last_with_key(
            orig.take(0),
            ip,
        ) by {
            assert(orig.take(0) =~= Seq::<T>::empty());
        }
    }
    while rest.len() > 0
        invariant
            0 <= i <= orig.len(),
            rest@ == orig.skip(i),
            m.wf(),
            forall|ip: IpAddress| #[trigger] m.spec_get(ip) == last_with_key(orig.take(i), ip),
        decreases rest@.len(),
    {
        proof {
            assert(rest@[0] == orig[i]);
        }
        let rec: T = rest.remove(0);
        let ghost prev = m;
        proof {
            assert(rec == orig[i]);
            assert(rest@ =~= orig.skip(i + 1));
        }
        m.insert(rec);
        proof {
            i = i + 1;
            assert forall|ip: IpAddress| #[trigger] m.spec_get(ip) == last_with_key(
                orig.take(i),
                ip,
            ) by {
                assert(orig.take(i).last() == orig[i - 1]);
                assert(orig.take(i).drop_last() =~= orig.take(i - 1));
                if ip == orig[i - 1].key() {
                    assert(m.spec_get(ip) == Some(orig[i - 1]));
                } else {
                    assert(m.spec_get(ip) == prev.spec_get(ip));
                }
            }
        }
    }
    proof {
        assert(orig.take(orig.len() as int) =~= orig);
        assert(rest@.len() == 0);
        assert(i == orig.len());
    }
    m
}

impl Delay {
    /// The latency records keyed by address, last record per address
    /// kept.
    pub fn to_map(delays: Vec<Delay>) -> (m: IpRecordMap<Delay>)
        ensures
            m.wf(),
            forall|ip: IpAddress| #[trigger] m.spec_get(ip) == last_with_key(delays@, ip),
    {
        to_record_map(delays)
    }
}

impl CFCDNCheckResult {
    /// The route records keyed by address, last record per address
    /// kept.
    pub fn to_map(routes: Vec<CFCDNCheckResult>) -> (m: IpRecordMap<CFCDNCheckResult>)
        ensures
            m.wf(),
            forall|ip: IpAddress| #[trigger] m.spec_get(ip) == last_with_key(routes@, ip),
    {
        to_record_map(routes)
    }
}

impl Speed {
    /// The download records keyed by address, last record per address
    /// kept.
    pub fn to_map(speeds: Vec<Speed>) -> (m: IpRecordMap<Speed>)
        ensures
            m.wf(),
            forall|ip: IpAddress| #[trigger] m.spec_get(ip) == last_with_key(speeds@, ip),
    {
        to_record_map(speeds)
    }
}

} // verus!
// The table text itself: built as ASCII bytes.
verus! {

/// Byte constants of the column titles and status words.
pub open spec fn title_ip() -> Seq<u8> {
    seq![73u8, 80u8]
}

pub open spec fn title_delay_cols() -> Seq<u8> {
    // ",Loss,Delay(ms)"
    seq![44u8, 76u8, 111u8, 115u8, 115u8, 44u8, 68u8, 101u8, 108u8, 97u8, 121u8, 40u8, 109u8, 115u8, 41u8]
}

pub open spec fn title_route_cols() -> Seq<u8> {
    // ",Status,Area"
    seq![44u8, 83u8, 116u8, 97u8, 116u8, 117u8, 115u8, 44u8, 65u8, 114u8, 101u8, 97u8]
}

pub open spec fn title_speed_cols() -> Seq<u8> {
    // ",Speed(MB/s)"
    seq![44u8, 83u8, 112u8, 101u8, 101u8, 100u8, 40u8, 77u8, 66u8, 47u8, 115u8, 41u8]
}

pub open spec fn status_word(s: RouteStatus) -> Seq<u8> {
    match s {
        // "Normal"
        RouteStatus::Normal => seq![78u8, 111u8, 114u8, 109u8, 97u8, 108u8],
        // "Diff"
        RouteStatus::DiffLocation => seq![68u8, 105u8, 102u8, 102u8],
        // "Empty"
        RouteStatus::NoLocation => seq![69u8, 109u8, 112u8, 116u8, 121u8],
    }
}

/// The loss rate of a latency record in tenths, rounded half up: the
/// failed share of the configured attempts.
pub open spec fn loss_tenths(time: u8, success: u8) -> nat {
    if success >= time {
        0
    } else {
        (((time - success) * 20 + time) / (2 * time)) as nat
    }
}

/// "x.y" for a rate given in tenths.
pub open spec fn tenths_text(tenths: nat) -> Seq<u8> {
    seq![(48 + tenths / 10) as u8, 46u8, (48 + tenths % 10) as u8]
}

/// Throughput of a download record in hundredths of a megabyte per
/// second; a transfer whose time rounds to nothing displays as zero.
pub open spec fn speed_hundredths(bytes: u64, ms: u64) -> nat {
    if ms == 0 {
        0
    } else {
        ((bytes * 100000) / (1048576 * ms)) as nat
    }
}

/// "x.yz" for a value given in hundredths.
pub open spec fn hundredths_text(h: nat) -> Seq<u8> {
    dec_digits(h / 100) + seq![46u8, (48 + h / 10 % 10) as u8, (48 + h % 10) as u8]
}

/// The latency columns of one row.
#[verifier::opaque]
pub open spec fn delay_cols(od: Option<Delay>, time: u8) -> Seq<u8> {
    match od {
        Some(d) => seq![44u8] + tenths_text(loss_tenths(time, d.success)) + seq![44u8]
            + dec_digits((d.consume / 1000000) as nat),
        None => Seq::empty(),
    }
}

/// A location-code byte as the table displays it: line breaks are
/// replaced by a question mark so no code can split or join rows.
pub open spec fn code_display_byte(b: u8) -> u8 {
    if b == 10 || b == 13 {
        63
    } else {
        b
    }
}

/// The route columns of one row.
#[verifier::opaque]
pub open spec fn route_cols(oh: Option<CFCDNCheckResult>) -> Seq<u8> {
    match oh {
        Some(h) => seq![44u8] + status_word(h.route_status) + seq![44u8]
            + h.location_code@.map_values(|b: u8| code_display_byte(b)),
        None => Seq::empty(),
    }
}

/// The download columns of one row.
#[verifier::opaque]
pub open spec fn speed_cols(os: Option<Speed>) -> Seq<u8> {
    match os {
        Some(s) => seq![44u8] + hundredths_text(speed_hundredths(s.total_download, s.consume_ms)),
        None => Seq::empty(),
    }
}

/// One row without its line feed.
#[verifier::opaque]
pub open spec fn csv_row_body(
    ip: IpAddress,
    od: Option<Delay>,
    oh: Option<CFCDNCheckResult>,
    os: Option<Speed>,
    time: u8,
) -> Seq<u8> {
    addr_text(ip) + delay_cols(od, time) + route_cols(oh) + speed_cols(os)
}

/// What a stage's map holds for one address, where the stage ran.
pub open spec fn stage_lookup<T: Keyed>(m: Option<IpRecordMap<T>>, ip: IpAddress) -> Option<T> {
    match m {
        Some(m) => m.spec_get(ip),
        None => None,
    }
}

/// The rows of the table, one per address, each ended by a line feed.
#[verifier::opaque]
pub open spec fn csv_rows(
    ips: Seq<IpAddress>,
    t: Option<IpRecordMap<Delay>>,
    h: Option<IpRecordMap<CFCDNCheckResult>>,
    s: Option<IpRecordMap<Speed>>,
    time: u8,
) -> Seq<u8>
    decreases ips.len(),
{
    if ips.len() == 0 {
        Seq::empty()
    } else {
        csv_row_body(
            ips[0],
            stage_lookup(t, ips[0]),
            stage_lookup(h, ips[0]),
            stage_lookup(s, ips[0]),
            time,
        ) + seq![10u8] + csv_rows(ips.skip(1), t, h, s, time)
    }
}

/// The title line of the table.
pub open spec fn csv_title(has_t: bool, has_h: bool, has_s: bool) -> Seq<u8> {
    title_ip() + (if has_t {
        title_delay_cols()
    } else {
        Seq::empty()
    }) + (if has_h {
        title_route_cols()
    } else {
        Seq::empty()
    }) + (if has_s {
        title_speed_cols()
    } else {
        Seq::empty()
    }) + seq![10u8]
}

/// The whole table text.
pub open spec fn csv_text(
    ips: Seq<IpAddress>,
    t: Option<IpRecordMap<Delay>>,
    h: Option<IpRecordMap<CFCDNCheckResult>>,
    s: Option<IpRecordMap<Speed>>,
    time: u8,
) -> Seq<u8> {
    csv_title(t is Some, h is Some, s is Some) + csv_rows(ips, t, h, s, time)
}

/// Appends a fixed run of bytes.
pub fn append_slice(out: &mut Vec<u8>, s: &[u8])
    ensures
        final(out)@ == old(out)@ + s@,
{
    let n: usize = s.len();
    let mut i: usize = 0;
    while i < n
        invariant
            0 <= i <= n,
            n == s@.len(),
            out@ == old(out)@ + s@.take(i as int),
        decreases n - i,
    {
        out.push(s[i]);
        i = i + 1;
        proof {
            assert(out@ =~= old(out)@ + s@.take(i as int));
        }
    }
    proof {
        assert(out@ =~= old(out)@ + s@);
    }
}

/// The failed share of the attempts, in tenths.
fn loss_tenths_exec(time: u8, success: u8) -> (r: u8)
    requires
        time >= 1,
    ensures
        r as nat == loss_tenths(time, success),
        r <= 10,
{
    if success >= time {
        0
    } else {
        let num: u32 = ((time - success) as u32) * 20 + (time as u32);
        let den: u32 = 2 * (time as u32);
        let t: u32 = num / den;
        proof {
            assert(num <= 21 * (time as u32)) by (nonlinear_arith)
                requires
                    1 <= time < 256,
                    success < time,
                    num == ((time - success) as u32) * 20 + (time as u32),
            ;
            assert(num / den <= 10) by (nonlinear_arith)
                requires
                    den == 2 * (time as u32),
                    1 <= time < 256,
                    num <= 21 * (time as u32),
            ;
        }
        t as u8
    }
}

/// Appends the latency columns of one row.
fn append_delay_cols(out: &mut Vec<u8>, tcping: &Option<IpRecordMap<Delay>>, ip: IpAddress, time: u8)
    requires
        time >= 1,
        match *tcping {
            Some(m) => m.wf(),
            None => true,
        },
    ensures
        final(out)@ == old(out)@ + delay_cols(stage_lookup(*tcping, ip), time),
{
    proof {
        reveal(delay_cols);
    }
    match tcping {
        Some(m) => {
            match m.get(&ip) {
                Some(d) => {
                    out.push(44);
                    let tenths: u8 = loss_tenths_exec(time, d.success);
                    out.push(48 + tenths / 10);
                    out.push(46);
                    out.push(48 + tenths % 10);
                    out.push(44);
                    let ms: Vec<u8> = crate::addr::dec_bytes_u64(d.consume / 1000000);
                    append_slice(&mut *out, ms.as_slice());
                    proof {
                        assert(out@ =~= old(out)@ + delay_cols(stage_lookup(*tcping, ip), time));
                    }
                },
                None => {
                    proof {
                        assert(out@ =~= old(out)@ + delay_cols(stage_lookup(*tcping, ip), time));
                    }
                },
            }
        },
        None => {
            proof {
                assert(out@ =~= old(out)@ + delay_cols(stage_lookup(*tcping, ip), time));
            }
        },
    }
}

/// Appends a location code with its line breaks made displayable.
fn append_display_code(out: &mut Vec<u8>, code: &Vec<u8>)
    ensures
        final(out)@ == old(out)@ + code@.map_values(|b: u8| code_display_byte(b)),
{
    let n: usize = code.len();
    let mut i: usize = 0;
    while i < n
        invariant
            0 <= i <= n,
            n == code@.len(),
            out@ == old(out)@ + code@.take(i as int).map_values(|b: u8| code_display_byte(b)),
        decreases n - i,
    {
        let b: u8 = code[i];
        if b == 10 || b == 13 {
            out.push(63);
        } else {
            out.push(b);
        }
        i = i + 1;
        proof {
            assert(out@ =~= old(out)@ + code@.take(i as int).map_values(
                |b: u8| code_display_byte(b),
            ));
        }
    }
    proof {
        assert(code@.take(n as int) =~= code@);
    }
}

/// Appends the route columns of one row.
fn append_route_cols(
    out: &mut Vec<u8>,
    httping: &Option<IpRecordMap<CFCDNCheckResult>>,
    ip: IpAddress,
)
    requires
        match *httping {
            Some(m) => m.wf(),
            None => true,
        },
    ensures
        final(out)@ == old(out)@ + route_cols(stage_lookup(*httping, ip)),
{
    proof {
        reveal(route_cols);
    }
    match httping {
        Some(m) => {
            match m.get(&ip) {
                Some(h) => {
                    out.push(44);
                    match h.route_status {
                        RouteStatus::Normal => {
                            out.push(78);
                            out.push(111);
                            out.push(114);
                            out.push(109);
                            out.push(97);
                            out.push(108);
                        },
                        RouteStatus::DiffLocation => {
                            out.push(68);
                            out.push(105);
                            out.push(102);
                            out.push(102);
                        },
                        RouteStatus::NoLocation => {
                            out.push(69);
                            out.push(109);
                            out.push(112);
                            out.push(116);
                            out.push(121);
                        },
                    }
                    out.push(44);
                    append_display_code(&mut *out, &h.location_code);
                    proof {
                        assert(out@ =~= old(out)@ + route_cols(stage_lookup(*httping, ip)));
                    }
                },
                None => {
                    proof {
                        assert(out@ =~= old(out)@ + route_cols(stage_lookup(*httping, ip)));
                    }
                },
            }
        },
        None => {
            proof {
                assert(out@ =~= old(out)@ + route_cols(stage_lookup(*httping, ip)));
            }
        },
    }
}

/// Appends the download columns of one row.
fn append_speed_cols(out: &mut Vec<u8>, speed: &Option<IpRecordMap<Speed>>, ip: IpAddress)
    requires
        match *speed {
            Some(m) => m.wf(),
            None => true,
        },
    ensures
        final(out)@ == old(out)@ + speed_cols(stage_lookup(*speed, ip)),
{
    proof {
        reveal(speed_cols);
    }
    match speed {
        Some(m) => {
            match m.get(&ip) {
                Some(s) => {
                    out.push(44);
                    let h: u128 = if s.consume_ms == 0 {
                        0
                    } else {
                        ((s.total_download as u128) * 100000) / (1048576 * (s.consume_ms as u128))
                    };
                    proof {
                        if s.consume_ms != 0 {
                            assert(1048576 * (s.consume_ms as u128) >= 1048576) by (nonlinear_arith)
                                requires
                                    s.consume_ms >= 1,
                            ;
                        }
                        assert(h as nat == speed_hundredths(s.total_download, s.consume_ms));
                    }
                    let sp: Vec<u8> = crate::addr::dec_bytes_u128(h / 100);
                    append_slice(&mut *out, sp.as_slice());
                    out.push(46);
                    out.push(48 + ((h / 10 % 10) as u8));
                    out.push(48 + ((h % 10) as u8));
                    proof {
                        assert(out@ =~= old(out)@ + speed_cols(stage_lookup(*speed, ip)));
                    }
                },
                None => {
                    proof {
                        assert(out@ =~= old(out)@ + speed_cols(stage_lookup(*speed, ip)));
                    }
                },
            }
        },
        None => {
            proof {
                assert(out@ =~= old(out)@ + speed_cols(stage_lookup(*speed, ip)));
            }
        },
    }
}

/// Builds the result table: a title line naming the columns of the
/// stages that ran, then one row per valid address holding its text and
/// the stage columns recorded for it.
/// Appends one full row: the address text, the stage columns, and the
/// line feed.
fn append_row(
    out: &mut Vec<u8>,
    tcping: &Option<IpRecordMap<Delay>>,
    httping: &Option<IpRecordMap<CFCDNCheckResult>>,
    speed: &Option<IpRecordMap<Speed>>,
    ip: IpAddress,
    time: u8,
)
    requires
        time >= 1,
        match *tcping {
            Some(m) => m.wf(),
            None => true,
        },
        match *httping {
            Some(m) => m.wf(),
            None => true,
        },
        match *speed {
            Some(m) => m.wf(),
            None => true,
        },
    ensures
        final(out)@ == old(out)@ + csv_row_body(
            ip,
            stage_lookup(*tcping, ip),
            stage_lookup(*httping, ip),
            stage_lookup(*speed, ip),
            time,
        ) + seq![10u8],
{
    let addr_bytes: Vec<u8> = ip.text_bytes();
    append_slice(&mut *out, addr_bytes.as_slice());
    append_delay_cols(&mut *out, tcping, ip, time);
    append_route_cols(&mut *out, httping, ip);
    append_speed_cols(&mut *out, speed, ip);
    out.push(10);
    proof {
        reveal(csv_row_body);
        assert(out@ =~= old(out)@ + csv_row_body(
            ip,
            stage_lookup(*tcping, ip),
            stage_lookup(*httping, ip),
            stage_lookup(*speed, ip),
            time,
        ) + seq![10u8]);
    }
}

/// One unfolding of `csv_rows` at position `i`.
proof fn lemma_rows_step(
    ips: Seq<IpAddress>,
    i: int,
    t: Option<IpRecordMap<Delay>>,
    h: Option<IpRecordMap<CFCDNCheckResult>>,
    s: Option<IpRecordMap<Speed>>,
    time: u8,
)
    requires
        0 <= i < ips.len(),
    ensures
        csv_rows(ips.skip(i), t, h, s, time) == csv_row_body(
            ips[i],
            stage_lookup(t, ips[i]),
            stage_lookup(h, ips[i]),
            stage_lookup(s, ips[i]),
            time,
        ) + seq![10u8] + csv_rows(ips.skip(i + 1), t, h, s, time),
{
    reveal(csv_rows);
    assert(ips.skip(i)[0] == ips[i]);
    assert(ips.skip(i).skip(1) =~= ips.skip(i + 1));
    assert(csv_rows(ips.skip(i), t, h, s, time) == csv_row_body(
        ips[i],
        stage_lookup(t, ips[i]),
        stage_lookup(h, ips[i]),
        stage_lookup(s, ips[i]),
        time,
    ) + seq![10u8] + csv_rows(ips.skip(i).skip(1), t, h, s, time));
}

pub fn build_csv(
    valid_ips: &Vec<IpAddress>,
    tcping: &Option<IpRecordMap<Delay>>,
    httping: &Option<IpRecordMap<CFCDNCheckResult>>,
    speed: &Option<IpRecordMap<Speed>>,
    time: u8,
) -> (r: Vec<u8>)
    requires
        time >= 1,
        match *tcping {
            Some(m) => m.wf(),
            None => true,
        },
        match *httping {
            Some(m) => m.wf(),
            None => true,
        },
        match *speed {
            Some(m) => m.wf(),
            None => true,
        },
    ensures
        r@ == csv_text(valid_ips@, *tcping, *httping, *speed, time),
{
    let mut out: Vec<u8> = Vec::new();
    out.push(73);
    out.push(80);
    match tcping {
        Some(_) => {
            let w: [u8; 15] = [44, 76, 111, 115, 115, 44, 68, 101, 108, 97, 121, 40, 109, 115, 41];
            append_slice(&mut out, w.as_slice());
        },
        None => {},
    }
    match httping {
        Some(_) => {
            let w: [u8; 12] = [44, 83, 116, 97, 116, 117, 115, 44, 65, 114, 101, 97];
            append_slice(&mut out, w.as_slice());
        },
        None => {},
    }
    match speed {
        Some(_) => {
            let w: [u8; 12] = [44, 83, 112, 101, 101, 100, 40, 77, 66, 47, 115, 41];
            append_slice(&mut out, w.as_slice());
        },
        None => {},
    }
    out.push(10);
    proof {
        assert(out@ =~= csv_title(*tcping is Some, *httping is Some, *speed is Some));
    }
    let ghost title = out@;
    let ghost total: Seq<u8> = csv_text(valid_ips@, *tcping, *httping, *speed, time);
    let n: usize = valid_ips.len();
    let mut i: usize = 0;
    proof {
        assert(valid_ips@.skip(0) =~= valid_ips@);
        assert(out@ + csv_rows(valid_ips@.skip(0), *tcping, *httping, *speed, time) == total);
    }
    while i < n
        invariant
            0 <= i <= n,
            n == valid_ips@.len(),
            time >= 1,
            match *tcping {
                Some(m) => m.wf(),
                None => true,
            },
            match *httping {
                Some(m) => m.wf(),
                None => true,
            },
            match *speed {
                Some(m) => m.wf(),
                None => true,
            },
            total == csv_text(valid_ips@, *tcping, *httping, *speed, time),
            out@ + csv_rows(valid_ips@.skip(i as int), *tcping, *httping, *speed, time) == total,
        decreases n - i,
    {
        let ip: IpAddress = valid_ips[i];
        let ghost row_start = out@;
        append_row(&mut out, tcping, httping, speed, ip, time);
        i = i + 1;
        proof {
            lemma_rows_step(valid_ips@, i - 1, *tcping, *httping, *speed, time);
            let body = csv_row_body(
                ip,
                stage_lookup(*tcping, ip),
                stage_lookup(*httping, ip),
                stage_lookup(*speed, ip),
                time,
            );
            let tail = csv_rows(valid_ips@.skip(i as int), *tcping, *httping, *speed, time);
            assert(out@ + tail =~= row_start + (body + seq![10u8] + tail));
        }
    }
    proof {
        reveal(csv_rows);
        assert(valid_ips@.skip(n as int) =~= Seq::<IpAddress>::empty());
        assert(csv_rows(Seq::<IpAddress>::empty(), *tcping, *httping, *speed, time) =~= Seq::<
            u8,
        >::empty());
        assert(out@ + Seq::<u8>::empty() =~= out@);
    }
    out
}

} // verus!
// The round-trip shape of the emitted table.
verus! {

/// `s` holds no occurrence of the byte `b`.
pub open spec fn avoids(s: Seq<u8>, b: u8) -> bool {
    forall|i: int| 0 <= i < s.len() ==> s[i] != b
}

proof fn lemma_avoids_concat(a: Seq<u8>, c: Seq<u8>, b: u8)
    requires
        avoids(a, b),
        avoids(c, b),
    ensures
        avoids(a + c, b),
{
    assert forall|i: int| 0 <= i < (a + c).len() implies (a + c)[i] != b by {
        if i < a.len() {
            assert((a + c)[i] == a[i]);
        } else {
            assert((a + c)[i] == c[i - a.len()]);
        }
    }
}

proof fn lemma_digits_avoid(n: nat, b: u8)
    requires
        b < 48 || b > 57,
    ensures
        avoids(crate::addr::dec_digits(n), b),
{
    crate::addr::lemma_dec_digits_ascii(n);
    assert forall|i: int| 0 <= i < crate::addr::dec_digits(n).len() implies crate::addr::dec_digits(
        n,
    )[i] != b by {
        assert(48 <= crate::addr::dec_digits(n)[i] <= 57);
    }
}

proof fn lemma_addr_avoids(ip: IpAddress)
    ensures
        avoids(addr_text(ip), 10),
        avoids(addr_text(ip), 44),
{
    crate::addr::lemma_addr_text_plain(ip);
    assert forall|i: int| 0 <= i < addr_text(ip).len() implies addr_text(ip)[i] != 10 && addr_text(
        ip,
    )[i] != 44 by {
        assert(crate::addr::plain_text_byte(addr_text(ip)[i]));
    }
}

/// The loss rate in tenths never exceeds ten.
proof fn lemma_loss_tenths_bound(time: u8, success: u8)
    ensures
        loss_tenths(time, success) <= 10,
{
    if success < time {
        assert((((time - success) * 20 + time) / (2 * time)) <= 10) by (nonlinear_arith)
            requires
                0 < time < 256,
                0 <= success < time,
        ;
    }
}

proof fn lemma_delay_cols_avoid_lf(od: Option<Delay>, time: u8)
    ensures
        avoids(delay_cols(od, time), 10),
        od is Some ==> delay_cols(od, time).len() > 0 && delay_cols(od, time)[0] == 44,
        od is None ==> delay_cols(od, time).len() == 0,
{
    reveal(delay_cols);
    match od {
        Some(d) => {
            lemma_loss_tenths_bound(time, d.success);
            lemma_digits_avoid(((d.consume / 1000000) as nat), 10);
            let th = loss_tenths(time, d.success);
            assert(avoids(seq![44u8], 10));
            assert(avoids(tenths_text(th), 10));
            lemma_avoids_concat(seq![44u8], tenths_text(th), 10);
            lemma_avoids_concat(seq![44u8] + tenths_text(th), seq![44u8], 10);
            lemma_avoids_concat(
                seq![44u8] + tenths_text(th) + seq![44u8],
                crate::addr::dec_digits((d.consume / 1000000) as nat),
                10,
            );
        },
        None => {},
    }
}

proof fn lemma_route_cols_avoid_lf(oh: Option<CFCDNCheckResult>)
    ensures
        avoids(route_cols(oh), 10),
        oh is Some ==> route_cols(oh).len() > 0 && route_cols(oh)[0] == 44,
        oh is None ==> route_cols(oh).len() == 0,
{
    reveal(route_cols);
    match oh {
        Some(h) => {
            let shown = h.location_code@.map_values(|b: u8| code_display_byte(b));
            assert(avoids(shown, 10)) by {
                assert forall|i: int| 0 <= i < shown.len() implies shown[i] != 10 by {
                    assert(shown[i] == code_display_byte(h.location_code@[i]));
                }
            }
            assert(avoids(seq![44u8], 10));
            assert(avoids(status_word(h.route_status), 10));
            lemma_avoids_concat(seq![44u8], status_word(h.route_status), 10);
            lemma_avoids_concat(seq![44u8] + status_word(h.route_status), seq![44u8], 10);
            lemma_avoids_concat(
                seq![44u8] + status_word(h.route_status) + seq![44u8],
                shown,
                10,
            );
        },
        None => {},
    }
}

proof fn lemma_speed_cols_avoid_lf(os: Option<Speed>)
    ensures
        avoids(speed_cols(os), 10),
        os is Some ==> speed_cols(os).len() > 0 && speed_cols(os)[0] == 44,
        os is None ==> speed_cols(os).len() == 0,
{
    reveal(speed_cols);
    match os {
        Some(s) => {
            let h = speed_hundredths(s.total_download, s.consume_ms);
            lemma_digits_avoid(h / 100, 10);
            assert(avoids(seq![46u8, (48 + h / 10 % 10) as u8, (48 + h % 10) as u8], 10));
            lemma_avoids_concat(
                crate::addr::dec_digits(h / 100),
                seq![46u8, (48 + h / 10 % 10) as u8, (48 + h % 10) as u8],
                10,
            );
            lemma_avoids_concat(seq![44u8], hundredths_text(h), 10);
        },
        None => {},
    }
}

/// A row body holds no line feed, as long as its location code holds
/// none.
proof fn lemma_body_avoids_lf(
    ip: IpAddress,
    od: Option<Delay>,
    oh: Option<CFCDNCheckResult>,
    os: Option<Speed>,
    time: u8,
)
    ensures
        avoids(csv_row_body(ip, od, oh, os, time), 10),
{
    reveal(csv_row_body);
    lemma_addr_avoids(ip);
    lemma_delay_cols_avoid_lf(od, time);
    lemma_route_cols_avoid_lf(oh);
    lemma_speed_cols_avoid_lf(os);
    lemma_avoids_concat(addr_text(ip), delay_cols(od, time), 10);
    lemma_avoids_concat(addr_text(ip) + delay_cols(od, time), route_cols(oh), 10);
    lemma_avoids_concat(
        addr_text(ip) + delay_cols(od, time) + route_cols(oh),
        speed_cols(os),
        10,
    );
}

/// Splitting at the line feed that ends a clean line peels that line
/// off.
proof fn lemma_split_line(body: Seq<u8>, rest: Seq<u8>)
    requires
        avoids(body, 10),
    ensures
        crate::text::split_byte(body + seq![10u8] + rest, 10) == seq![body]
            + crate::text::split_byte(rest, 10),
{
    let s = body + seq![10u8] + rest;
    assert(s[body.len() as int] == 10);
    assert forall|j: int| 0 <= j < body.len() implies s[j] != 10 by {
        assert(s[j] == body[j]);
    }
    crate::text::lemma_find_byte_is_first(s, 10, body.len() as int);
    assert(s.take(body.len() as int) =~= body);
    assert(s.skip(body.len() as int + 1) =~= rest);
}

/// The first comma-separated field of a clean prefix followed by a
/// comma-led tail is the prefix itself.
proof fn lemma_first_field_generic(addr: Seq<u8>, tail: Seq<u8>)
    requires
        avoids(addr, 44),
        tail.len() == 0 || tail[0] == 44,
    ensures
        crate::text::split_byte(addr + tail, 44).len() >= 1,
        crate::text::split_byte(addr + tail, 44)[0] == addr,
{
    let body = addr + tail;
    if tail.len() == 0 {
        assert(body =~= addr);
        crate::text::lemma_find_byte(body, 44);
        match crate::text::find_byte(body, 44) {
            Some(k) => {
                assert(body[k] != 44);
            },
            None => {},
        }
        assert(crate::text::split_byte(body, 44) == seq![body]);
    } else {
        assert(body[addr.len() as int] == 44);
        assert forall|j: int| 0 <= j < addr.len() implies body[j] != 44 by {
            assert(body[j] == addr[j]);
        }
        crate::text::lemma_find_byte_is_first(body, 44, addr.len() as int);
        assert(crate::text::split_byte(body, 44)[0] == body.take(addr.len() as int));
        assert(body.take(addr.len() as int) =~= addr);
        crate::text::lemma_split_byte_len(body, 44);
    }
}

/// The route columns are empty or begin with their comma.
proof fn lemma_route_cols_shape(oh: Option<CFCDNCheckResult>)
    ensures
        oh is Some ==> route_cols(oh).len() > 0 && route_cols(oh)[0] == 44,
        oh is None ==> route_cols(oh).len() == 0,
{
    reveal(route_cols);
}

/// The first comma-separated field of a row body is the address text.
#[verifier::rlimit(100)]
proof fn lemma_body_first_field(
    ip: IpAddress,
    od: Option<Delay>,
    oh: Option<CFCDNCheckResult>,
    os: Option<Speed>,
    time: u8,
)
    ensures
        ({
            let fields = crate::text::split_byte(csv_row_body(ip, od, oh, os, time), 44);
            fields.len() >= 1 && fields[0] == addr_text(ip)
        }),
{
    let body = csv_row_body(ip, od, oh, os, time);
    let addr = addr_text(ip);
    let tail = delay_cols(od, time) + route_cols(oh) + speed_cols(os);
    assert(body =~= addr + tail) by {
        reveal(csv_row_body);
    }
    lemma_addr_avoids(ip);
    lemma_delay_cols_avoid_lf(od, time);
    lemma_route_cols_shape(oh);
    lemma_speed_cols_avoid_lf(os);
    if tail.len() != 0 {
        assert(tail[0] == 44) by {
            if od is Some {
                assert(tail[0] == delay_cols(od, time)[0]);
            } else if oh is Some {
                assert(delay_cols(od, time).len() == 0);
                assert(tail[0] == route_cols(oh)[0]);
            } else {
                assert(delay_cols(od, time).len() == 0);
                assert(route_cols(oh).len() == 0);
                assert(os is Some);
                assert(tail[0] == speed_cols(os)[0]);
            }
        }
    }
    lemma_first_field_generic(addr, tail);
    assert(crate::text::split_byte(body, 44) == crate::text::split_byte(addr + tail, 44));
}

/// The lines of the rows region: one line per address, each the row
/// body of its address, and one empty line after the final line feed.
proof fn lemma_rows_lines(
    ips: Seq<IpAddress>,
    t: Option<IpRecordMap<Delay>>,
    h: Option<IpRecordMap<CFCDNCheckResult>>,
    s: Option<IpRecordMap<Speed>>,
    time: u8,
)
    requires
        match h {
            Some(m) => m.wf(),
            None => true,
        },
    ensures
        ({
            let lines = crate::text::split_byte(csv_rows(ips, t, h, s, time), 10);
            &&& lines.len() == ips.len() + 1
            &&& forall|i: int|
                0 <= i < ips.len() ==> #[trigger] lines[i] == csv_row_body(
                    ips[i],
                    stage_lookup(t, ips[i]),
                    stage_lookup(h, ips[i]),
                    stage_lookup(s, ips[i]),
                    time,
                )
        }),
    decreases ips.len(),
{
    reveal(csv_rows);
    if ips.len() == 0 {
        crate::text::lemma_find_byte(Seq::<u8>::empty(), 10);
        assert(csv_rows(ips, t, h, s, time) =~= Seq::<u8>::empty());
        assert(crate::text::split_byte(Seq::<u8>::empty(), 10) == seq![Seq::<u8>::empty()]);
    } else {
        let ip = ips[0];
        let oh = stage_lookup(h, ip);
        let body = csv_row_body(
            ip,
            stage_lookup(t, ip),
            oh,
            stage_lookup(s, ip),
            time,
        );
        lemma_body_avoids_lf(ip, stage_lookup(t, ip), oh, stage_lookup(s, ip), time);
        let rest = csv_rows(ips.skip(1), t, h, s, time);
        assert(csv_rows(ips, t, h, s, time) =~= body + seq![10u8] + rest);
        lemma_split_line(body, rest);
        lemma_rows_lines(ips.skip(1), t, h, s, time);
        let lines = crate::text::split_byte(csv_rows(ips, t, h, s, time), 10);
        let sub = crate::text::split_byte(rest, 10);
        assert(lines =~= seq![body] + sub);
        assert forall|i: int| 0 <= i < ips.len() implies #[trigger] lines[i] == csv_row_body(
            ips[i],
            stage_lookup(t, ips[i]),
            stage_lookup(h, ips[i]),
            stage_lookup(s, ips[i]),
            time,
        ) by {
            if i == 0 {
                assert(lines[0] == body);
            } else {
                assert(lines[i] == sub[i - 1]);
                assert(ips.skip(1)[i - 1] == ips[i]);
            }
        }
    }
}

/// The title line holds no line feed before its terminator.
proof fn lemma_title_avoids_lf(has_t: bool, has_h: bool, has_s: bool)
    ensures
        ({
            let tb = title_ip() + (if has_t {
                title_delay_cols()
            } else {
                Seq::empty()
            }) + (if has_h {
                title_route_cols()
            } else {
                Seq::empty()
            }) + (if has_s {
                title_speed_cols()
            } else {
                Seq::empty()
            });
            avoids(tb, 10) && csv_title(has_t, has_h, has_s) == tb + seq![10u8]
        }),
{
    assert(avoids(title_ip(), 10));
    assert(avoids(title_delay_cols(), 10));
    assert(avoids(title_route_cols(), 10));
    assert(avoids(title_speed_cols(), 10));
    assert(avoids(Seq::<u8>::empty(), 10));
    let a = title_ip();
    let b = if has_t {
        title_delay_cols()
    } else {
        Seq::<u8>::empty()
    };
    let c = if has_h {
        title_route_cols()
    } else {
        Seq::<u8>::empty()
    };
    let d = if has_s {
        title_speed_cols()
    } else {
        Seq::<u8>::empty()
    };
    lemma_avoids_concat(a, b, 10);
    lemma_avoids_concat(a + b, c, 10);
    lemma_avoids_concat(a + b + c, d, 10);
}

/// The emitted table parses back row by row: splitting it on line
/// feeds gives the title line, one line per valid address and a final
/// empty line, and the first comma-separated field of each address
/// line is exactly the text of that address.
pub proof fn lemma_csv_round_trip(
    ips: Seq<IpAddress>,
    t: Option<IpRecordMap<Delay>>,
    h: Option<IpRecordMap<CFCDNCheckResult>>,
    s: Option<IpRecordMap<Speed>>,
    time: u8,
)
    requires
        match h {
            Some(m) => m.wf(),
            None => true,
        },
    ensures
        ({
            let lines = crate::text::split_byte(csv_text(ips, t, h, s, time), 10);
            &&& lines.len() == ips.len() + 2
            &&& forall|i: int|
                0 <= i < ips.len() ==> crate::text::split_byte(#[trigger] lines[i + 1], 44)[0]
                    == addr_text(ips[i])
        }),
{
    lemma_title_avoids_lf(t is Some, h is Some, s is Some);
    let tb = title_ip() + (if t is Some {
        title_delay_cols()
    } else {
        Seq::empty()
    }) + (if h is Some {
        title_route_cols()
    } else {
        Seq::empty()
    }) + (if s is Some {
        title_speed_cols()
    } else {
        Seq::empty()
    });
    let rows = csv_rows(ips, t, h, s, time);
    assert(csv_text(ips, t, h, s, time) =~= tb + seq![10u8] + rows);
    lemma_split_line(tb, rows);
    lemma_rows_lines(ips, t, h, s, time);
    let lines = crate::text::split_byte(csv_text(ips, t, h, s, time), 10);
    let sub = crate::text::split_byte(rows, 10);
    assert(lines =~= seq![tb] + sub);
    assert forall|i: int|
        0 <= i < ips.len() implies crate::text::split_byte(#[trigger] lines[i + 1], 44)[0]
        == addr_text(ips[i]) by {
        assert(lines[i + 1] == sub[i]);
        lemma_body_first_field(
            ips[i],
            stage_lookup(t, ips[i]),
            stage_lookup(h, ips[i]),
            stage_lookup(s, ips[i]),
            time,
        );
    }
}

} // verus!
