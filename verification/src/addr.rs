//! IP addresses as plain values: an IPv4 address is its 32-bit big-endian
//! value, an IPv6 address its 128-bit value.  Equality and ordering follow
//! the canonical byte form, with every IPv4 address before every IPv6 one.
use vstd::prelude::*;
use vstd::string::StringSliceAdditionalSpecFns;

verus! {

#[derive(Clone, Copy, PartialEq, Eq, Structural, Hash, Debug)]
pub enum IpAddress {
    V4(u32),
    V6(u128),
}

/// Total order on addresses: IPv4 before IPv6, numeric within each family.
pub open spec fn addr_le(a: IpAddress, b: IpAddress) -> bool {
    match (a, b) {
        (IpAddress::V4(x), IpAddress::V4(y)) => x <= y,
        (IpAddress::V4(_), IpAddress::V6(_)) => true,
        (IpAddress::V6(_), IpAddress::V4(_)) => false,
        (IpAddress::V6(x), IpAddress::V6(y)) => x <= y,
    }
}

/// The ASCII decimal digits of `n`, most significant first.
pub open spec fn dec_digits(n: nat) -> Seq<u8>
    decreases n,
{
    if n < 10 {
        seq![(48 + n) as u8]
    } else {
        dec_digits(n / 10).push((48 + n % 10) as u8)
    }
}

pub proof fn lemma_dec_digits_ascii(n: nat)
    ensures
        dec_digits(n).len() >= 1,
        forall|i: int| 0 <= i < dec_digits(n).len() ==> 48 <= #[trigger] dec_digits(n)[i] <= 57,
    decreases n,
{
    if n >= 10 {
        lemma_dec_digits_ascii(n / 10);
    }
}

/// Decimal digits of `n`, as executable bytes.
pub fn dec_bytes_u128(n: u128) -> (r: Vec<u8>)
    ensures
        r@ == dec_digits(n as nat),
    decreases n,
{
    if n < 10 {
        let mut v: Vec<u8> = Vec::new();
        v.push(48 + (n as u8));
        proof {
            assert(v@ =~= dec_digits(n as nat));
        }
        v
    } else {
        let mut v: Vec<u8> = dec_bytes_u128(n / 10);
        v.push(48 + ((n % 10) as u8));
        v
    }
}

pub fn dec_bytes_u64(n: u64) -> (r: Vec<u8>)
    ensures
        r@ == dec_digits(n as nat),
{
    dec_bytes_u128(n as u128)
}

/// One hexadecimal digit, lower case.
pub open spec fn hex_digit(d: nat) -> u8 {
    if d < 10 {
        (48 + d) as u8
    } else {
        (87 + d) as u8
    }
}

/// One 16-bit group in hexadecimal, leading zeros dropped ("0" for a
/// zero group).
pub open spec fn group_text(g: nat) -> Seq<u8> {
    if g < 16 {
        seq![hex_digit(g)]
    } else if g < 256 {
        seq![hex_digit(g / 16), hex_digit(g % 16)]
    } else if g < 4096 {
        seq![hex_digit(g / 256), hex_digit(g / 16 % 16), hex_digit(g % 16)]
    } else {
        seq![hex_digit(g / 4096 % 16), hex_digit(g / 256 % 16), hex_digit(g / 16 % 16), hex_digit(g % 16)]
    }
}

/// How many consecutive zero groups start at position `i`.
pub open spec fn zero_run_len(gs: Seq<u16>, i: int) -> nat
    decreases gs.len() - i,
{
    if i < 0 || i >= gs.len() || gs[i] != 0 {
        0
    } else {
        1 + zero_run_len(gs, i + 1)
    }
}

/// The longest run of zero groups at or after `i`, as its start and
/// length; on equal lengths the leftmost run wins.
pub open spec fn best_zero_run(gs: Seq<u16>, i: int) -> (int, nat)
    decreases gs.len() - i,
{
    if i >= gs.len() {
        (i, 0nat)
    } else {
        let here = zero_run_len(gs, i);
        let rest = best_zero_run(gs, i + 1);
        if here >= rest.1 {
            (i, here)
        } else {
            rest
        }
    }
}

/// The groups from `from` up to `to`, joined with colons.
pub open spec fn groups_join(gs: Seq<u16>, from: int, to: int) -> Seq<u8>
    decreases to - from,
{
    if from >= to {
        Seq::empty()
    } else if from + 1 == to {
        group_text(gs[from] as nat)
    } else {
        group_text(gs[from] as nat) + seq![58u8] + groups_join(gs, from + 1, to)
    }
}

/// The zero-compressed text of a run of groups: the longest (leftmost
/// on ties) run of at least two zero groups becomes "::", the rest are
/// joined with colons.
pub open spec fn compressed_text(gs: Seq<u16>) -> Seq<u8> {
    let run = best_zero_run(gs, 0);
    if run.1 < 2 {
        groups_join(gs, 0, gs.len() as int)
    } else {
        groups_join(gs, 0, run.0) + seq![58u8, 58u8] + groups_join(
            gs,
            run.0 + run.1,
            gs.len() as int,
        )
    }
}

/// The eight 16-bit groups of an IPv6 value, most significant first.
pub open spec fn v6_group(ip: u128, i: int) -> u16 {
    if i == 0 {
        ((ip as nat) / 0x10000000000000000000000000000 % 0x10000) as u16
    } else if i == 1 {
        ((ip as nat) / 0x1000000000000000000000000 % 0x10000) as u16
    } else if i == 2 {
        ((ip as nat) / 0x100000000000000000000 % 0x10000) as u16
    } else if i == 3 {
        ((ip as nat) / 0x10000000000000000 % 0x10000) as u16
    } else if i == 4 {
        ((ip as nat) / 0x1000000000000 % 0x10000) as u16
    } else if i == 5 {
        ((ip as nat) / 0x100000000 % 0x10000) as u16
    } else if i == 6 {
        ((ip as nat) / 0x10000 % 0x10000) as u16
    } else {
        ((ip as nat) % 0x10000) as u16
    }
}

pub open spec fn v6_groups(ip: u128) -> Seq<u16> {
    seq![
        v6_group(ip, 0),
        v6_group(ip, 1),
        v6_group(ip, 2),
        v6_group(ip, 3),
        v6_group(ip, 4),
        v6_group(ip, 5),
        v6_group(ip, 6),
        v6_group(ip, 7),
    ]
}

/// Zero-compressed canonical text of an IPv6 value.
pub open spec fn v6_text(ip: u128) -> Seq<u8> {
    compressed_text(v6_groups(ip))
}

/// One group as executable bytes.
fn group_text_bytes(g: u16) -> (r: Vec<u8>)
    ensures
        r@ == group_text(g as nat),
{
    let mut v: Vec<u8> = Vec::new();
    if g < 16 {
        v.push(hex_digit_byte(g));
    } else if g < 256 {
        v.push(hex_digit_byte(g / 16));
        v.push(hex_digit_byte(g % 16));
    } else if g < 4096 {
        v.push(hex_digit_byte(g / 256));
        v.push(hex_digit_byte(g / 16 % 16));
        v.push(hex_digit_byte(g % 16));
    } else {
        v.push(hex_digit_byte(g / 4096 % 16));
        v.push(hex_digit_byte(g / 256 % 16));
        v.push(hex_digit_byte(g / 16 % 16));
        v.push(hex_digit_byte(g % 16));
    }
    proof {
        assert(v@ =~= group_text(g as nat));
    }
    v
}

fn hex_digit_byte(d: u16) -> (r: u8)
    requires
        d < 16,
    ensures
        r == hex_digit(d as nat),
{
    if d < 10 {
        48 + (d as u8)
    } else {
        87 + (d as u8)
    }
}

/// The zero groups running from position `i`.
fn zero_run_len_exec(gs: &Vec<u16>, i: usize) -> (r: usize)
    requires
        i <= gs@.len(),
    ensures
        r as nat == zero_run_len(gs@, i as int),
        r <= gs@.len() - i,
    decreases gs@.len() - i,
{
    if i >= gs.len() || gs[i] != 0 {
        0
    } else {
        1 + zero_run_len_exec(gs, i + 1)
    }
}

/// The longest (leftmost on ties) zero run at or after `i`.
fn best_zero_run_exec(gs: &Vec<u16>, i: usize) -> (r: (usize, usize))
    requires
        i <= gs@.len(),
    ensures
        r.0 as int == best_zero_run(gs@, i as int).0,
        r.1 as nat == best_zero_run(gs@, i as int).1,
        i <= r.0 <= gs@.len(),
        r.0 + r.1 <= gs@.len(),
    decreases gs@.len() - i,
{
    if i >= gs.len() {
        (i, 0)
    } else {
        let here: usize = zero_run_len_exec(gs, i);
        let rest: (usize, usize) = best_zero_run_exec(gs, i + 1);
        if here >= rest.1 {
            (i, here)
        } else {
            rest
        }
    }
}

/// Appends the groups from `from` up to `to`, joined with colons.
fn append_groups(out: &mut Vec<u8>, gs: &Vec<u16>, from: usize, to: usize)
    requires
        from <= to,
        to <= gs@.len(),
    ensures
        final(out)@ == old(out)@ + groups_join(gs@, from as int, to as int),
    decreases to - from,
{
    if from >= to {
        proof {
            assert(out@ =~= old(out)@ + groups_join(gs@, from as int, to as int));
        }
    } else {
        let g: Vec<u8> = group_text_bytes(gs[from]);
        let ghost before = out@;
        let mut i: usize = 0;
        while i < g.len()
            invariant
                0 <= i <= g@.len(),
                out@ == before + g@.take(i as int),
            decreases g@.len() - i,
        {
            out.push(g[i]);
            i = i + 1;
            proof {
                assert(out@ =~= before + g@.take(i as int));
            }
        }
        proof {
            assert(g@.take(g@.len() as int) =~= g@);
        }
        if from + 1 < to {
            out.push(58);
        }
        append_groups(&mut *out, gs, from + 1, to);
        proof {
            if from + 1 == to {
                assert(out@ =~= old(out)@ + groups_join(gs@, from as int, to as int));
            } else {
                assert(out@ =~= old(out)@ + groups_join(gs@, from as int, to as int));
            }
        }
    }
}

/// The compressed text of a full set of groups, as executable bytes.
fn compressed_text_bytes(gs: &Vec<u16>) -> (r: Vec<u8>)
    ensures
        r@ == compressed_text(gs@),
{
    let n: usize = gs.len();
    let run: (usize, usize) = best_zero_run_exec(gs, 0);
    let mut out: Vec<u8> = Vec::new();
    if run.1 < 2 {
        append_groups(&mut out, gs, 0, n);
        proof {
            assert(out@ =~= compressed_text(gs@));
        }
    } else {
        append_groups(&mut out, gs, 0, run.0);
        out.push(58);
        out.push(58);
        append_groups(&mut out, gs, run.0 + run.1, n);
        proof {
            assert(out@ =~= compressed_text(gs@));
        }
    }
    out
}

/// Dotted-quad text of an IPv4 value.
pub open spec fn v4_text(ip: u32) -> Seq<u8> {
    dec_digits((ip / 0x1000000) as nat) + seq![46u8] + dec_digits((ip / 0x10000 % 256) as nat)
        + seq![46u8] + dec_digits((ip / 256 % 256) as nat) + seq![46u8] + dec_digits(
        (ip % 256) as nat,
    )
}

/// The text form of an address.
#[verifier::opaque]
pub open spec fn addr_text(a: IpAddress) -> Seq<u8> {
    match a {
        IpAddress::V4(ip) => v4_text(ip),
        IpAddress::V6(ip) => v6_text(ip),
    }
}

/// Every byte of an address's text is an ASCII digit, a lower-case hex
/// letter, a dot or a colon; in particular no comma, CR or LF occurs.
pub open spec fn plain_text_byte(b: u8) -> bool {
    48 <= b <= 57 || b == 46 || b == 58 || 97 <= b <= 102
}

pub open spec fn all_plain(s: Seq<u8>) -> bool {
    forall|i: int| 0 <= i < s.len() ==> #[trigger] plain_text_byte(s[i])
}

proof fn lemma_all_plain_concat(a: Seq<u8>, b: Seq<u8>)
    requires
        all_plain(a),
        all_plain(b),
    ensures
        all_plain(a + b),
{
    assert forall|i: int| 0 <= i < (a + b).len() implies #[trigger] plain_text_byte(
        (a + b)[i],
    ) by {
        if i < a.len() {
            assert((a + b)[i] == a[i]);
        } else {
            assert((a + b)[i] == b[i - a.len()]);
        }
    }
}

proof fn lemma_dec_digits_plain(n: nat)
    ensures
        all_plain(dec_digits(n)),
{
    lemma_dec_digits_ascii(n);
    assert forall|i: int| 0 <= i < dec_digits(n).len() implies #[trigger] plain_text_byte(
        dec_digits(n)[i],
    ) by {
        assert(48 <= dec_digits(n)[i] <= 57);
    }
}

proof fn lemma_hex_digit_plain(d: nat)
    requires
        d < 16,
    ensures
        plain_text_byte(hex_digit(d)),
{
}

proof fn lemma_group_text_plain(g: nat)
    ensures
        all_plain(group_text(g)),
{
    lemma_hex_digit_plain(g % 16);
    lemma_hex_digit_plain(g / 16 % 16);
    lemma_hex_digit_plain(g / 256 % 16);
    lemma_hex_digit_plain(g / 4096 % 16);
    if g < 16 {
        lemma_hex_digit_plain(g);
    } else if g < 256 {
        lemma_hex_digit_plain(g / 16);
    } else if g < 4096 {
        lemma_hex_digit_plain(g / 256);
    }
    assert forall|i: int| 0 <= i < group_text(g).len() implies #[trigger] plain_text_byte(
        group_text(g)[i],
    ) by {
        assert(group_text(g).len() <= 4);
    }
}

proof fn lemma_groups_join_plain(gs: Seq<u16>, from: int, to: int)
    ensures
        all_plain(groups_join(gs, from, to)),
    decreases to - from,
{
    if from >= to {
    } else if from + 1 == to {
        lemma_group_text_plain(gs[from] as nat);
    } else {
        lemma_group_text_plain(gs[from] as nat);
        lemma_groups_join_plain(gs, from + 1, to);
        let colon = seq![58u8];
        assert(all_plain(colon)) by {
            assert(plain_text_byte(colon[0]));
        }
        lemma_all_plain_concat(group_text(gs[from] as nat), colon);
        lemma_all_plain_concat(group_text(gs[from] as nat) + colon, groups_join(gs, from + 1, to));
    }
}

proof fn lemma_compressed_text_plain(gs: Seq<u16>)
    ensures
        all_plain(compressed_text(gs)),
{
    let run = best_zero_run(gs, 0);
    let sep = seq![58u8, 58u8];
    assert(all_plain(sep)) by {
        assert(plain_text_byte(sep[0]));
        assert(plain_text_byte(sep[1]));
    }
    if run.1 < 2 {
        lemma_groups_join_plain(gs, 0, gs.len() as int);
    } else {
        lemma_groups_join_plain(gs, 0, run.0);
        lemma_groups_join_plain(gs, run.0 + run.1, gs.len() as int);
        lemma_all_plain_concat(groups_join(gs, 0, run.0), sep);
        lemma_all_plain_concat(
            groups_join(gs, 0, run.0) + sep,
            groups_join(gs, run.0 + run.1, gs.len() as int),
        );
    }
}

#[verifier::rlimit(50)]
pub proof fn lemma_addr_text_plain(a: IpAddress)
    ensures
        all_plain(addr_text(a)),
        addr_text(a).len() >= 1,
{
    reveal(addr_text);
    let dot = seq![46u8];
    let colon = seq![58u8];
    assert(all_plain(dot)) by {
        assert(plain_text_byte(dot[0]));
    }
    assert(all_plain(colon)) by {
        assert(plain_text_byte(colon[0]));
    }
    match a {
        IpAddress::V4(ip) => {
            let d0 = dec_digits((ip / 0x1000000) as nat);
            let d1 = dec_digits((ip / 0x10000 % 256) as nat);
            let d2 = dec_digits((ip / 256 % 256) as nat);
            let d3 = dec_digits((ip % 256) as nat);
            lemma_dec_digits_plain((ip / 0x1000000) as nat);
            lemma_dec_digits_plain((ip / 0x10000 % 256) as nat);
            lemma_dec_digits_plain((ip / 256 % 256) as nat);
            lemma_dec_digits_plain((ip % 256) as nat);
            lemma_all_plain_concat(d0, dot);
            lemma_all_plain_concat(d0 + dot, d1);
            lemma_all_plain_concat(d0 + dot + d1, dot);
            lemma_all_plain_concat(d0 + dot + d1 + dot, d2);
            lemma_all_plain_concat(d0 + dot + d1 + dot + d2, dot);
            lemma_all_plain_concat(d0 + dot + d1 + dot + d2 + dot, d3);
            lemma_dec_digits_ascii((ip / 0x1000000) as nat);
        },
        IpAddress::V6(ip) => {
            lemma_compressed_text_plain(v6_groups(ip));
            lemma_compressed_text_len(v6_groups(ip));
        },
    }
}

/// The compressed text of eight groups is never empty.
proof fn lemma_compressed_text_len(gs: Seq<u16>)
    requires
        gs.len() == 8,
    ensures
        compressed_text(gs).len() >= 1,
{
    let run = best_zero_run(gs, 0);
    lemma_best_zero_run_bounds(gs, 0);
    if run.1 < 2 {
        assert(groups_join(gs, 0, 8).len() >= 1) by {
            lemma_group_text_len(gs[0] as nat);
        }
    } else if run.0 > 0 {
        assert(groups_join(gs, 0, run.0).len() >= 1) by {
            lemma_group_text_len(gs[0] as nat);
        }
    }
}

proof fn lemma_group_text_len(g: nat)
    ensures
        1 <= group_text(g).len() <= 4,
{
}

/// The best zero run lies within the groups.
proof fn lemma_best_zero_run_bounds(gs: Seq<u16>, i: int)
    requires
        0 <= i <= gs.len(),
    ensures
        i <= best_zero_run(gs, i).0 <= gs.len(),
        best_zero_run(gs, i).0 + best_zero_run(gs, i).1 <= gs.len(),
    decreases gs.len() - i,
{
    if i < gs.len() {
        lemma_zero_run_len_bound(gs, i);
        lemma_best_zero_run_bounds(gs, i + 1);
    }
}

proof fn lemma_zero_run_len_bound(gs: Seq<u16>, i: int)
    requires
        0 <= i <= gs.len(),
    ensures
        zero_run_len(gs, i) <= gs.len() - i,
    decreases gs.len() - i,
{
    if i < gs.len() && gs[i] == 0 {
        lemma_zero_run_len_bound(gs, i + 1);
    }
}

impl IpAddress {
    pub fn from_v4_octets(a: u8, b: u8, c: u8, d: u8) -> (r: IpAddress)
        ensures
            r == IpAddress::V4(
                ((a as u32) * 0x1000000 + (b as u32) * 0x10000 + (c as u32) * 256
                    + (d as u32)) as u32,
            ),
    {
        IpAddress::V4(
            (a as u32) * 0x1000000 + (b as u32) * 0x10000 + (c as u32) * 256 + (d as u32),
        )
    }

    /// The text bytes of this address.
    pub fn text_bytes(&self) -> (r: Vec<u8>)
        ensures
            r@ == addr_text(*self),
    {
        proof {
            reveal(addr_text);
        }
        match self {
            IpAddress::V4(ip) => {
                let ip: u32 = *ip;
                let mut out: Vec<u8> = dec_bytes_u64((ip / 0x1000000) as u64);
                out.push(46);
                let p1: Vec<u8> = dec_bytes_u64((ip / 0x10000 % 256) as u64);
                out.extend_from_slice(p1.as_slice());
                out.push(46);
                let p2: Vec<u8> = dec_bytes_u64((ip / 256 % 256) as u64);
                out.extend_from_slice(p2.as_slice());
                out.push(46);
                let p3: Vec<u8> = dec_bytes_u64((ip % 256) as u64);
                out.extend_from_slice(p3.as_slice());
                proof {
                    assert(out@ =~= v4_text(ip));
                }
                out
            },
            IpAddress::V6(ip) => {
                let ip: u128 = *ip;
                let mut gs: Vec<u16> = Vec::new();
                gs.push((ip >> 112u32) as u16);
                gs.push((ip >> 96u32) as u16);
                gs.push((ip >> 80u32) as u16);
                gs.push((ip >> 64u32) as u16);
                gs.push((ip >> 48u32) as u16);
                gs.push((ip >> 32u32) as u16);
                gs.push((ip >> 16u32) as u16);
                gs.push(ip as u16);
                proof {
                    lemma_v6_shift_group(ip);
                    assert(gs@ =~= v6_groups(ip));
                }
                let out: Vec<u8> = compressed_text_bytes(&gs);
                proof {
                    assert(out@ == v6_text(ip));
                }
                out
            },
        }
    }

    /// The text of this address as a `String`.
    pub fn to_text(&self) -> (r: String)
        ensures
            r@ == addr_text(*self).map_values(|b: u8| b as char),
    {
        let bytes: Vec<u8> = self.text_bytes();
        proof {
            lemma_addr_text_plain(*self);
            assert forall|i: int| 0 <= i < bytes@.len() implies bytes@[i] < 128 by {
                assert(plain_text_byte(bytes@[i]));
            }
        }
        crate::text::ascii_string(&bytes)
    }
}

/// The shifted 16-bit groups of a 128-bit value, as division and remainder.
proof fn lemma_v6_shift_group(ip: u128)
    ensures
        (ip >> 112u32) as u16 as nat == (ip as nat) / 0x10000000000000000000000000000 % 0x10000,
        (ip >> 96u32) as u16 as nat == (ip as nat) / 0x1000000000000000000000000 % 0x10000,
        (ip >> 80u32) as u16 as nat == (ip as nat) / 0x100000000000000000000 % 0x10000,
        (ip >> 64u32) as u16 as nat == (ip as nat) / 0x10000000000000000 % 0x10000,
        (ip >> 48u32) as u16 as nat == (ip as nat) / 0x1000000000000 % 0x10000,
        (ip >> 32u32) as u16 as nat == (ip as nat) / 0x100000000 % 0x10000,
        (ip >> 16u32) as u16 as nat == (ip as nat) / 0x10000 % 0x10000,
        ip as u16 as nat == (ip as nat) % 0x10000,
{
    assert((ip >> 112u32) as u16 == ip / 0x10000000000000000000000000000 % 0x10000) by (bit_vector);
    assert((ip >> 96u32) as u16 == ip / 0x1000000000000000000000000 % 0x10000) by (bit_vector);
    assert((ip >> 80u32) as u16 == ip / 0x100000000000000000000 % 0x10000) by (bit_vector);
    assert((ip >> 64u32) as u16 == ip / 0x10000000000000000 % 0x10000) by (bit_vector);
    assert((ip >> 48u32) as u16 == ip / 0x1000000000000 % 0x10000) by (bit_vector);
    assert((ip >> 32u32) as u16 == ip / 0x100000000 % 0x10000) by (bit_vector);
    assert((ip >> 16u32) as u16 == ip / 0x10000 % 0x10000) by (bit_vector);
    assert(ip as u16 == ip % 0x10000) by (bit_vector);
}

/// A smaller number never takes more decimal digits.
pub proof fn lemma_dec_digits_len_le(a: nat, b: nat)
    requires
        a <= b,
    ensures
        dec_digits(a).len() <= dec_digits(b).len(),
    decreases b,
{
    lemma_dec_digits_ascii(a);
    lemma_dec_digits_ascii(b);
    if b >= 10 {
        if a >= 10 {
            lemma_dec_digits_len_le(a / 10, b / 10);
        } else {
            lemma_dec_digits_ascii(b / 10);
        }
    }
}

/// No IPv4 address takes more text than the all-ones address.
pub proof fn lemma_v4_text_len_le(v: u32)
    ensures
        addr_text(IpAddress::V4(v)).len() <= addr_text(IpAddress::V4(0xffff_ffffu32)).len(),
{
    reveal(addr_text);
    lemma_dec_digits_len_le((v / 0x1000000) as nat, 255);
    lemma_dec_digits_len_le((v / 0x10000 % 256) as nat, 255);
    lemma_dec_digits_len_le((v / 256 % 256) as nat, 255);
    lemma_dec_digits_len_le((v % 256) as nat, 255);
}

/// Value of a run of ASCII decimal digit bytes.
pub open spec fn dec_val(s: Seq<u8>) -> nat
    decreases s.len(),
{
    if s.len() == 0 {
        0
    } else {
        dec_val(s.drop_last()) * 10 + (s.last() - 48) as nat
    }
}

/// A well-formed dotted-quad component: one to three digits, no leading
/// zero unless the component is exactly "0", value at most 255.
pub open spec fn valid_dec_part(s: Seq<u8>) -> bool {
    1 <= s.len() <= 3 && (forall|i: int| 0 <= i < s.len() ==> 48 <= #[trigger] s[i] <= 57) && (
    s.len() > 1 ==> s[0] != 48) && dec_val(s) <= 255
}

/// Strict dotted-quad IPv4 grammar over text bytes.
pub open spec fn v4_parse(s: Seq<u8>) -> Option<u32> {
    let parts = crate::text::split_byte(s, 46);
    if parts.len() == 4 && valid_dec_part(parts[0]) && valid_dec_part(parts[1]) && valid_dec_part(
        parts[2],
    ) && valid_dec_part(parts[3]) {
        Some(
            (dec_val(parts[0]) * 0x1000000 + dec_val(parts[1]) * 0x10000 + dec_val(parts[2]) * 256
                + dec_val(parts[3])) as u32,
        )
    } else {
        None
    }
}

/// Reads one dotted-quad component.
fn parse_dec_part(p: &[u8]) -> (r: Option<u8>)
    ensures
        r is Some <==> valid_dec_part(p@),
        r is Some ==> r->0 as nat == dec_val(p@),
{
    let n: usize = p.len();
    if n == 0 || n > 3 {
        return None;
    }
    if n > 1 && p[0] == 48 {
        return None;
    }
    let mut val: u32 = 0;
    let mut i: usize = 0;
    while i < n
        invariant
            0 <= i <= n <= 3,
            n == p@.len(),
            forall|j: int| 0 <= j < i ==> 48 <= #[trigger] p@[j] <= 57,
            val as nat == dec_val(p@.take(i as int)),
            i == 0 ==> val == 0,
            i == 1 ==> val <= 9,
            i == 2 ==> val <= 99,
            i == 3 ==> val <= 999,
        decreases n - i,
    {
        let b: u8 = p[i];
        if b < 48 || b > 57 {
            return None;
        }
        val = val * 10 + ((b - 48) as u32);
        i = i + 1;
        proof {
            assert(p@.take(i as int).drop_last() =~= p@.take(i - 1));
            assert(p@.take(i as int).last() == p@[i - 1]);
        }
    }
    proof {
        assert(p@.take(n as int) =~= p@);
    }
    if val > 255 {
        return None;
    }
    Some(val as u8)
}

impl IpAddress {
    /// Reads a dotted-quad IPv4 literal such as "203.0.113.9"; any other
    /// text gives `None`.
    pub fn parse(s: &str) -> (r: Option<IpAddress>)
        ensures
            r == match v4_parse(s.spec_bytes()) {
                Some(ip) => Some(IpAddress::V4(ip)),
                None => None::<IpAddress>,
            },
    {
        let bytes: &[u8] = s.as_bytes();
        let parts: Vec<Vec<u8>> = crate::text::split_on_byte(bytes, 46);
        if parts.len() != 4 {
            return None;
        }
        let p0: Option<u8> = parse_dec_part(parts[0].as_slice());
        let p1: Option<u8> = parse_dec_part(parts[1].as_slice());
        let p2: Option<u8> = parse_dec_part(parts[2].as_slice());
        let p3: Option<u8> = parse_dec_part(parts[3].as_slice());
        proof {
            assert(parts@.map_values(|t: Vec<u8>| t@)[0] == parts@[0]@);
            assert(parts@.map_values(|t: Vec<u8>| t@)[1] == parts@[1]@);
            assert(parts@.map_values(|t: Vec<u8>| t@)[2] == parts@[2]@);
            assert(parts@.map_values(|t: Vec<u8>| t@)[3] == parts@[3]@);
        }
        match (p0, p1, p2, p3) {
            (Some(a), Some(b), Some(c), Some(d)) => {
                Some(IpAddress::from_v4_octets(a, b, c, d))
            },
            _ => None,
        }
    }
}

/// Compares two addresses in the order `addr_le` describes.
pub fn addr_le_exec(a: &IpAddress, b: &IpAddress) -> (r: bool)
    ensures
        r == addr_le(*a, *b),
{
    match (a, b) {
        (IpAddress::V4(x), IpAddress::V4(y)) => *x <= *y,
        (IpAddress::V4(_), IpAddress::V6(_)) => true,
        (IpAddress::V6(_), IpAddress::V4(_)) => false,
        (IpAddress::V6(x), IpAddress::V6(y)) => *x <= *y,
    }
}

} // verus!
