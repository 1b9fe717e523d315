//! The candidate pool: address lines expanded into address lists,
//! deduplicated, and optionally sub-sampled uniformly.
use vstd::prelude::*;
use vstd::arithmetic::power2::pow2;
use vstd::string::StringSliceAdditionalSpecFns;
use std::collections::HashSet;

use crate::addr::IpAddress;
use crate::input::Opts;
use crate::text::split_byte;

verus! {

/// What an address line parses to: the address family (true for IPv4),
/// the network base value, and the prefix length.
pub uninterp spec fn cidr_parse(line: Seq<u8>) -> Option<(bool, u128, u8)>;

/// The parsed block lies within its family's address range.
pub open spec fn block_fits(c: (bool, u128, u8)) -> bool {
    if c.0 {
        c.2 <= 32 && (c.1 as nat) + pow2((32 - c.2) as nat) <= 0x1_0000_0000
    } else {
        c.2 <= 128 && (c.1 as nat) + pow2((128 - c.2) as nat)
            <= 0x1_0000_0000_0000_0000_0000_0000_0000_0000
    }
}

/// Relies on cidr_utils's IpCidr::from_str: a line that parses gives a
/// network whose stored base has its host bits cleared, so the whole
/// block lies within its family's range, and whose prefix length is at
/// most the family's bit width.
#[verifier::external_body]
fn parse_cidr_line(line: &[u8]) -> (r: Option<(bool, u128, u8)>)
    ensures
        r == cidr_parse(line@),
        r is Some ==> block_fits(r->0),
{
    let s = match std::str::from_utf8(line) {
        Ok(s) => s,
        Err(_) => {
            return None;
        },
    };
    match cidr_utils::cidr::IpCidr::from_str(s) {
        Ok(cidr_utils::cidr::IpCidr::V4(c)) => Some((true, c.get_prefix() as u128, c.get_bits())),
        Ok(cidr_utils::cidr::IpCidr::V6(c)) => Some((false, c.get_prefix(), c.get_bits())),
        Err(_) => None,
    }
}

/// How many host bits an IPv6 block may have and still be expanded
/// address by address.
pub const MAX_V6_HOST_BITS: u8 = 24;

/// The addresses of one parsed block, in ascending order.  An IPv6
/// block with more host bits than `MAX_V6_HOST_BITS` is not expanded:
/// such a block cannot be scanned address by address.
pub open spec fn expansion_of(c: (bool, u128, u8)) -> Seq<IpAddress> {
    if c.0 && c.2 <= 32 {
        Seq::new(pow2((32 - c.2) as nat), |k: int| IpAddress::V4((c.1 + k) as u32))
    } else if !c.0 && 128 - MAX_V6_HOST_BITS <= c.2 <= 128 {
        Seq::new(pow2((128 - c.2) as nat), |k: int| IpAddress::V6((c.1 + k) as u128))
    } else {
        Seq::empty()
    }
}

/// Appends the addresses of one block.
fn push_expansion(out: &mut Vec<IpAddress>, c: (bool, u128, u8))
    requires
        block_fits(c),
    ensures
        final(out)@ == old(out)@ + expansion_of(c),
{
    let ghost base0: Seq<IpAddress> = out@;
    if c.0 {
        let host_bits: u8 = 32 - c.2;
        proof {
            vstd::arithmetic::power2::lemma2_to64();
            vstd::bits::lemma_u64_shl_is_mul(1u64, host_bits as u64);
        }
        let count: u64 = 1u64 << (host_bits as u64);
        proof {
            assert(count as nat == pow2(host_bits as nat));
        }
        let base: u32 = (c.1 as u32);
        proof {
            assert(c.1 < 0x1_0000_0000) by {
                vstd::arithmetic::power2::lemma_pow2_pos(host_bits as nat);
            }
            assert(base == c.1);
        }
        let mut k: u64 = 0;
        while k < count
            invariant
                0 <= k <= count,
                count as nat == pow2(host_bits as nat),
                host_bits == 32 - c.2,
                c.0,
                block_fits(c),
                base == c.1,
                out@ == base0 + expansion_of(c).take(k as int),
            decreases count - k,
        {
            proof {
                assert((base as nat) + (k as nat) < 0x1_0000_0000);
                assert(expansion_of(c)[k as int] == IpAddress::V4((c.1 + k) as u32));
                assert(expansion_of(c).take(k + 1) =~= expansion_of(c).take(k as int).push(
                    expansion_of(c)[k as int],
                ));
            }
            out.push(IpAddress::V4(base + (k as u32)));
            k = k + 1;
            proof {
                assert(out@ =~= base0 + expansion_of(c).take(k as int));
            }
        }
        proof {
            assert(expansion_of(c).take(count as int) =~= expansion_of(c));
        }
    } else if c.2 >= 128 - MAX_V6_HOST_BITS {
        let host_bits: u8 = 128 - c.2;
        proof {
            vstd::arithmetic::power2::lemma2_to64();
            vstd::bits::lemma_u64_shl_is_mul(1u64, host_bits as u64);
        }
        let count: u64 = 1u64 << (host_bits as u64);
        proof {
            assert(count as nat == pow2(host_bits as nat));
        }
        let base: u128 = c.1;
        let mut k: u64 = 0;
        while k < count
            invariant
                0 <= k <= count,
                count as nat == pow2(host_bits as nat),
                host_bits == 128 - c.2,
                !c.0,
                c.2 >= 128 - MAX_V6_HOST_BITS,
                block_fits(c),
                base == c.1,
                out@ == base0 + expansion_of(c).take(k as int),
            decreases count - k,
        {
            proof {
                assert((base as nat) + (k as nat) < 0x1_0000_0000_0000_0000_0000_0000_0000_0000);
                assert(expansion_of(c)[k as int] == IpAddress::V6((c.1 + k) as u128));
                assert(expansion_of(c).take(k + 1) =~= expansion_of(c).take(k as int).push(
                    expansion_of(c)[k as int],
                ));
            }
            out.push(IpAddress::V6(base + (k as u128)));
            k = k + 1;
            proof {
                assert(out@ =~= base0 + expansion_of(c).take(k as int));
            }
        }
        proof {
            assert(expansion_of(c).take(count as int) =~= expansion_of(c));
        }
    } else {
        proof {
            assert(expansion_of(c) =~= Seq::<IpAddress>::empty());
            assert(out@ =~= base0 + expansion_of(c));
        }
    }
}

/// A line with its trailing carriage return removed, as line-based
/// reading of CRLF input leaves it.
pub open spec fn strip_cr(line: Seq<u8>) -> Seq<u8> {
    if line.len() > 0 && line.last() == 13 {
        line.drop_last()
    } else {
        line
    }
}

/// The addresses one line contributes: the expansion of the block it
/// parses to, nothing if it does not parse.
pub open spec fn line_addresses(line: Seq<u8>) -> Seq<IpAddress> {
    match cidr_parse(strip_cr(line)) {
        Some(c) => expansion_of(c),
        None => Seq::empty(),
    }
}

/// All addresses of a candidate text: its lines' contributions, in
/// order.
pub open spec fn text_addresses(bytes: Seq<u8>) -> Seq<IpAddress> {
    split_byte(bytes, 10).map_values(|l: Seq<u8>| line_addresses(l)).flatten()
}

/// Expands every line of `ips_str` that parses as an address or CIDR
/// block; lines that do not parse are skipped.
pub fn parse_addresses(ips_str: &str) -> (r: Vec<IpAddress>)
    ensures
        r@ == text_addresses(ips_str.spec_bytes()),
{
    let bytes: &[u8] = ips_str.as_bytes();
    let lines: Vec<Vec<u8>> = crate::text::split_on_byte(bytes, 10);
    let ghost lv: Seq<Seq<u8>> = lines@.map_values(|t: Vec<u8>| t@);
    let n: usize = lines.len();
    let mut out: Vec<IpAddress> = Vec::new();
    let mut i: usize = 0;
    proof {
        assert(lv.take(0).map_values(|l: Seq<u8>| line_addresses(l)) =~= Seq::<
            Seq<IpAddress>,
        >::empty());
        assert(Seq::<Seq<IpAddress>>::empty().flatten() =~= Seq::<IpAddress>::empty());
        assert(out@ =~= Seq::<IpAddress>::empty());
    }
    while i < n
        invariant
            0 <= i <= n,
            n == lines@.len(),
            lv == lines@.map_values(|t: Vec<u8>| t@),
            lv == split_byte(bytes@, 10),
            bytes@ == ips_str.spec_bytes(),
            out@ == lv.take(i as int).map_values(|l: Seq<u8>| line_addresses(l)).flatten(),
        decreases n - i,
    {
        let line: &Vec<u8> = &lines[i];
        let ll: usize = line.len();
        let stripped: &[u8] = if ll > 0 && line[ll - 1] == 13 {
            &line.as_slice()[0..ll - 1]
        } else {
            line.as_slice()
        };
        proof {
            assert(lv[i as int] == line@);
            assert(stripped@ =~= strip_cr(lv[i as int]));
        }
        let ghost pre = lv.take(i as int).map_values(|l: Seq<u8>| line_addresses(l));
        proof {
            assert(lv.take(i + 1).map_values(|l: Seq<u8>| line_addresses(l)) =~= pre.push(
                line_addresses(lv[i as int]),
            ));
            vstd::seq::Seq::lemma_flatten_push(pre, line_addresses(lv[i as int]));
        }
        match parse_cidr_line(stripped) {
            Some(c) => {
                push_expansion(&mut out, c);
            },
            None => {
                proof {
                    assert(out@ =~= out@ + line_addresses(lv[i as int]));
                }
            },
        }
        i = i + 1;
    }
    proof {
        assert(lv.take(n as int) =~= lv);
    }
    out
}

/// The first-seen occurrences of the addresses, every address once.
pub fn dedup_addresses(v: Vec<IpAddress>) -> (r: Vec<IpAddress>)
    ensures
        r@.no_duplicates(),
        r@.to_set() == v@.to_set(),
{
    broadcast use vstd::std_specs::hash::group_hash_axioms;

    let mut seen4: HashSet<u32> = HashSet::new();
    let mut seen6: HashSet<u128> = HashSet::new();
    let mut out: Vec<IpAddress> = Vec::new();
    let n: usize = v.len();
    let mut i: usize = 0;
    proof {
        assert(v@.take(0).to_set() =~= Set::<IpAddress>::empty());
        assert(out@.to_set() =~= Set::<IpAddress>::empty());
    }
    while i < n
        invariant
            0 <= i <= n,
            n == v@.len(),
            out@.no_duplicates(),
            out@.to_set() == v@.take(i as int).to_set(),
            forall|x: u32|
                #[trigger] seen4@.contains(x) <==> out@.to_set().contains(IpAddress::V4(x)),
            forall|x: u128|
                #[trigger] seen6@.contains(x) <==> out@.to_set().contains(IpAddress::V6(x)),
            vstd::std_specs::hash::obeys_key_model::<u32>(),
            vstd::std_specs::hash::obeys_key_model::<u128>(),
            vstd::std_specs::hash::builds_valid_hashers::<std::hash::RandomState>(),
        decreases n - i,
    {
        broadcast use vstd::std_specs::hash::group_hash_axioms;

        let a: IpAddress = v[i];
        proof {
            assert(v@.take(i + 1) =~= v@.take(i as int).push(a));
            v@.take(i as int).lemma_push_to_set_commute(a);
        }
        let is_new: bool = match a {
            IpAddress::V4(x) => seen4.insert(x),
            IpAddress::V6(x) => seen6.insert(x),
        };
        if is_new {
            proof {
                assert(!out@.to_set().contains(a));
                assert(!out@.contains(a));
                out@.lemma_push_to_set_commute(a);
            }
            out.push(a);
        } else {
            proof {
                assert(out@.to_set().contains(a));
                assert(v@.take(i + 1).to_set() =~= out@.to_set());
            }
        }
        i = i + 1;
    }
    proof {
        assert(v@.take(n as int) =~= v@);
    }
    out
}

/// Relies on rand's index sampling: a uniform random choice of
/// `amount` distinct indices below `length`, without replacement.
#[verifier::external_body]
fn sample_indices(length: usize, amount: usize) -> (r: Vec<usize>)
    requires
        amount <= length,
    ensures
        r@.len() == amount,
        forall|i: int| 0 <= i < r@.len() ==> #[trigger] r@[i] < length,
        forall|i: int, j: int| 0 <= i < j < r@.len() ==> r@[i] != r@[j],
{
    rand::seq::index::sample(&mut rand::rng(), length, amount).into_vec()
}

/// All addresses the configured candidate texts contribute, in order,
/// duplicates included.
pub open spec fn opt_addresses(opts: Opts) -> Seq<IpAddress> {
    opts.address@.map_values(
        |s: String| text_addresses(vstd::utf8::encode_utf8(s@)),
    ).flatten()
}

/// The deduplicated candidate pool of the configured texts, uniformly
/// sub-sampled to `random_number` addresses when that knob is positive
/// and below the pool size.  Every address handed back is distinct and
/// comes from the pool.
pub fn parse_addresses_from_opt(opts: &Opts) -> (r: Vec<IpAddress>)
    ensures
        r@.no_duplicates(),
        forall|k: int| 0 <= k < r@.len() ==> opt_addresses(*opts).to_set().contains(#[trigger] r@[k]),
        r@.len() == if 0 < opts.random_number < opt_addresses(*opts).to_set().len() {
            opts.random_number as int
        } else {
            opt_addresses(*opts).to_set().len() as int
        },
{
    let n: usize = opts.address.len();
    let mut all: Vec<IpAddress> = Vec::new();
    let mut i: usize = 0;
    let ghost texts = opts.address@.map_values(
        |s: String| text_addresses(vstd::utf8::encode_utf8(s@)),
    );
    proof {
        assert(texts.take(0) =~= Seq::<Seq<IpAddress>>::empty());
        assert(Seq::<Seq<IpAddress>>::empty().flatten() =~= Seq::<IpAddress>::empty());
        assert(all@ =~= Seq::<IpAddress>::empty());
    }
    while i < n
        invariant
            0 <= i <= n,
            n == opts.address@.len(),
            texts == opts.address@.map_values(
                |s: String| text_addresses(vstd::utf8::encode_utf8(s@)),
            ),
            all@ == texts.take(i as int).flatten(),
        decreases n - i,
    {
        let ghost pre = texts.take(i as int);
        let mut part: Vec<IpAddress> = parse_addresses(opts.address[i].as_str());
        proof {
            assert(texts[i as int] == text_addresses(
                vstd::utf8::encode_utf8(opts.address@[i as int]@),
            ));
            assert(part@ == texts[i as int]);
            assert(texts.take(i + 1) =~= pre.push(texts[i as int]));
            vstd::seq::Seq::lemma_flatten_push(pre, texts[i as int]);
        }
        all.append(&mut part);
        i = i + 1;
    }
    proof {
        assert(texts.take(n as int) =~= texts);
    }
    let uniq: Vec<IpAddress> = dedup_addresses(all);
    proof {
        uniq@.unique_seq_to_set();
    }
    let pool: usize = uniq.len();
    let amount: usize = if opts.random_number > 0 && opts.random_number < pool {
        opts.random_number
    } else {
        pool
    };
    let picks: Vec<usize> = sample_indices(pool, amount);
    let mut out: Vec<IpAddress> = Vec::new();
    let mut j: usize = 0;
    while j < amount
        invariant
            0 <= j <= amount,
            amount == picks@.len(),
            out@.len() == j,
            pool == uniq@.len(),
            uniq@.no_duplicates(),
            uniq@.to_set() == opt_addresses(*opts).to_set(),
            forall|a: int| 0 <= a < picks@.len() ==> #[trigger] picks@[a] < pool,
            forall|a: int, b: int| 0 <= a < b < picks@.len() ==> picks@[a] != picks@[b],
            forall|a: int| 0 <= a < j ==> out@[a] == uniq@[picks@[a] as int],
        decreases amount - j,
    {
        out.push(uniq[picks[j]]);
        j = j + 1;
    }
    proof {
        assert(out@.no_duplicates()) by {
            assert forall|a: int, b: int|
                0 <= a < b < out@.len() implies out@[a] != out@[b] by {
                assert(out@[a] == uniq@[picks@[a] as int]);
                assert(out@[b] == uniq@[picks@[b] as int]);
                assert(picks@[a] != picks@[b]);
            }
        }
        assert forall|k: int|
            0 <= k < out@.len() implies opt_addresses(*opts).to_set().contains(
            #[trigger] out@[k],
        ) by {
            assert(out@[k] == uniq@[picks@[k] as int]);
            assert(uniq@.contains(uniq@[picks@[k] as int]));
            assert(uniq@.to_set().contains(out@[k]));
        }
    }
    out
}

/// Expanding a block yields exactly one address per host value, all
/// distinct; a narrower block inside a wider one adds nothing new, so
/// the deduplicated union of both is the wider block's address set.
pub proof fn lemma_cidr_expansion_dedup(b24: u32, b28: u32)
    requires
        b24 % 256 == 0,
        (b24 as nat) + 256 <= 0x1_0000_0000,
        b28 % 16 == 0,
        b24 <= b28,
        (b28 as nat) + 16 <= (b24 as nat) + 256,
    ensures
        expansion_of((true, b24 as u128, 24)).len() == 256,
        expansion_of((true, b24 as u128, 24)).no_duplicates(),
        expansion_of((true, b28 as u128, 28)).len() == 16,
        expansion_of((true, b28 as u128, 28)).no_duplicates(),
        (expansion_of((true, b24 as u128, 24)) + expansion_of((true, b28 as u128, 28))).to_set()
            == expansion_of((true, b24 as u128, 24)).to_set(),
        (expansion_of((true, b24 as u128, 24)) + expansion_of(
            (true, b28 as u128, 28),
        )).to_set().len() == 256,
{
    vstd::arithmetic::power2::lemma2_to64();
    let e24 = expansion_of((true, b24 as u128, 24));
    let e28 = expansion_of((true, b28 as u128, 28));
    assert(e24.len() == 256);
    assert(e28.len() == 16);
    assert(e24.no_duplicates()) by {
        assert forall|a: int, b: int| 0 <= a < b < e24.len() implies e24[a] != e24[b] by {
            assert(e24[a] == IpAddress::V4((b24 + a) as u32));
            assert(e24[b] == IpAddress::V4((b24 + b) as u32));
        }
    }
    assert(e28.no_duplicates()) by {
        assert forall|a: int, b: int| 0 <= a < b < e28.len() implies e28[a] != e28[b] by {
            assert(e28[a] == IpAddress::V4((b28 + a) as u32));
            assert(e28[b] == IpAddress::V4((b28 + b) as u32));
        }
    }
    assert((e24 + e28).to_set() =~= e24.to_set()) by {
        assert forall|x: IpAddress| (e24 + e28).to_set().contains(x) implies e24.to_set().contains(
            x,
        ) by {
            assert((e24 + e28).contains(x));
            let k = choose|k: int| 0 <= k < (e24 + e28).len() && (e24 + e28)[k] == x;
            if k < e24.len() {
                assert(e24[k] == x);
            } else {
                let k2 = k - e24.len();
                assert(e28[k2] == x);
                assert(e28[k2] == IpAddress::V4((b28 + k2) as u32));
                let off = (b28 - b24) + k2;
                assert(0 <= off < 256);
                assert(e24[off] == IpAddress::V4((b24 + off) as u32));
                assert(b24 + off == b28 + k2);
                assert(e24[off] == x);
            }
            assert(e24.contains(x));
            assert(e24.to_set().contains(x));
        }
        assert forall|x: IpAddress| e24.to_set().contains(x) implies (e24 + e28).to_set().contains(
            x,
        ) by {
            assert(e24.contains(x));
            let k = choose|k: int| 0 <= k < e24.len() && e24[k] == x;
            assert((e24 + e28)[k] == x);
            assert((e24 + e28).contains(x));
            assert((e24 + e28).to_set().contains(x));
        }
    }
    e24.unique_seq_to_set();
}

} // verus!
