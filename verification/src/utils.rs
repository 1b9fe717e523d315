//! Presentation helpers: byte counts in human-readable units, and the
//! domain name of a download URL.
use vstd::prelude::*;
use vstd::arithmetic::div_mod::lemma_div_denominator;

use crate::addr::dec_digits;

verus! {

/// Powers of 1024, the scale steps of the size units.
pub open spec fn pow1024(i: nat) -> nat
    decreases i,
{
    if i == 0 {
        1
    } else {
        1024 * pow1024((i - 1) as nat)
    }
}

/// How many times `n` can be scaled down by 1024 before it drops below
/// one unit.
pub open spec fn unit_index(n: nat) -> nat
    decreases n,
{
    if n < 1024 {
        0
    } else {
        1 + unit_index(n / 1024)
    }
}

/// The unit suffix of scale `i`: "B", "KB", ... up to "YB", as bytes.
pub open spec fn unit_suffix(i: nat) -> Seq<u8> {
    if i == 0 {
        seq![66u8]
    } else if i == 1 {
        seq![75u8, 66u8]
    } else if i == 2 {
        seq![77u8, 66u8]
    } else if i == 3 {
        seq![71u8, 66u8]
    } else if i == 4 {
        seq![84u8, 66u8]
    } else if i == 5 {
        seq![80u8, 66u8]
    } else if i == 6 {
        seq![69u8, 66u8]
    } else if i == 7 {
        seq![90u8, 66u8]
    } else {
        seq![89u8, 66u8]
    }
}

/// The scaled size in hundredths of its unit, rounded half up.
pub open spec fn size_hundredths(size: nat) -> nat {
    (size * 100 + pow1024(unit_index(size)) / 2) / pow1024(unit_index(size))
}

/// The displayed text: the scaled value with two decimals, a space and
/// the unit suffix.
pub open spec fn size_text(size: nat) -> Seq<u8> {
    dec_digits(size_hundredths(size) / 100) + seq![46u8] + seq![
        (48 + (size_hundredths(size) / 10 % 10)) as u8,
        (48 + (size_hundredths(size) % 10)) as u8,
        32u8,
    ] + unit_suffix(unit_index(size))
}

/// A byte count is below the next scale step above its unit index.
proof fn lemma_unit_index_bound(n: nat)
    ensures
        n < pow1024(unit_index(n) + 1),
    decreases n,
{
    if n < 1024 {
        assert(pow1024(1) == 1024 * pow1024(0));
    } else {
        lemma_unit_index_bound(n / 1024);
        let p = pow1024(unit_index(n / 1024) + 1);
        assert(n / 1024 + 1 <= p);
        assert(n < 1024 * (n / 1024 + 1)) by (nonlinear_arith);
        assert(1024 * (n / 1024 + 1) <= 1024 * p) by (nonlinear_arith)
            requires
                n / 1024 + 1 <= p,
        ;
        assert(pow1024(unit_index(n) + 1) == 1024 * p);
    }
}

proof fn lemma_pow1024_values()
    ensures
        pow1024(0) == 1,
        pow1024(1) == 0x400,
        pow1024(2) == 0x100000,
        pow1024(3) == 0x40000000,
        pow1024(4) == 0x10000000000,
        pow1024(5) == 0x4000000000000,
        pow1024(6) == 0x1000000000000000,
        pow1024(7) == 0x400000000000000000,
        pow1024(8) == 0x100000000000000000000,
{
    assert(pow1024(0) == 1);
    assert(pow1024(1) == 1024 * pow1024(0));
    assert(pow1024(2) == 1024 * pow1024(1));
    assert(pow1024(3) == 1024 * pow1024(2));
    assert(pow1024(4) == 1024 * pow1024(3));
    assert(pow1024(5) == 1024 * pow1024(4));
    assert(pow1024(6) == 1024 * pow1024(5));
    assert(pow1024(7) == 1024 * pow1024(6));
    assert(pow1024(8) == 1024 * pow1024(7));
}

/// Scales a byte count into the largest unit that keeps it above one,
/// and renders it with two decimals, rounded half up.  Sizes of a
/// thousand yottabytes or more are outside the unit table.
pub fn human_readable_size(size: u128) -> (r: String)
    requires
        unit_index(size as nat) <= 8,
    ensures
        r@ == size_text(size as nat).map_values(|b: u8| b as char),
{
    let mut s: u128 = size;
    let mut idx: u8 = 0;
    proof {
        lemma_pow1024_values();
    }
    while s >= 1024
        invariant
            idx as nat <= unit_index(size as nat),
            s as nat == (size as nat) / pow1024(idx as nat),
            (idx as nat) + unit_index(s as nat) == unit_index(size as nat),
            unit_index(size as nat) <= 8,
        decreases s,
    {
        proof {
            lemma_pow1024_values();
            lemma_div_denominator(size as int, pow1024(idx as nat) as int, 1024);
            assert(pow1024((idx + 1) as nat) == 1024 * pow1024(idx as nat));
            vstd::arithmetic::div_mod::lemma_div_is_ordered_by_denominator(
                size as int,
                1,
                pow1024(idx as nat) as int,
            );
        }
        s = s / 1024;
        idx = idx + 1;
    }
    proof {
        assert(unit_index(s as nat) == 0);
        assert(idx as nat == unit_index(size as nat));
    }
    // the scale divisor
    let mut base: u128 = 1;
    let mut j: u8 = 0;
    while j < idx
        invariant
            0 <= j <= idx <= 8,
            base as nat == pow1024(j as nat),
        decreases idx - j,
    {
        proof {
            lemma_pow1024_values();
            lemma_pow1024_le(j as nat, 7);
        }
        base = base * 1024;
        j = j + 1;
    }
    proof {
        lemma_pow1024_values();
        lemma_pow1024_le(idx as nat, 8);
        lemma_unit_index_bound(size as nat);
        lemma_pow1024_le(unit_index(size as nat) + 1, 9);
        assert(pow1024(9) == 1024 * pow1024(8));
        assert((size as nat) * 100 + (base as nat) / 2
            < 0x1_0000_0000_0000_0000_0000_0000_0000_0000) by {
            assert((size as nat) < pow1024(9));
        }
    }
    let h: u128 = (size * 100 + base / 2) / base;
    let mut out: Vec<u8> = crate::addr::dec_bytes_u128(h / 100);
    out.push(46);
    out.push(48 + ((h / 10 % 10) as u8));
    out.push(48 + ((h % 10) as u8));
    out.push(32);
    let unit: (u8, bool) = if idx == 0 {
        (66, false)
    } else if idx == 1 {
        (75, true)
    } else if idx == 2 {
        (77, true)
    } else if idx == 3 {
        (71, true)
    } else if idx == 4 {
        (84, true)
    } else if idx == 5 {
        (80, true)
    } else if idx == 6 {
        (69, true)
    } else if idx == 7 {
        (90, true)
    } else {
        (89, true)
    };
    out.push(unit.0);
    if unit.1 {
        out.push(66);
    }
    proof {
        crate::addr::lemma_dec_digits_ascii((size_hundredths(size as nat) / 100) as nat);
        assert(out@ =~= size_text(size as nat));
        assert forall|i: int| 0 <= i < out@.len() implies out@[i] < 128 by {
            if i < dec_digits(size_hundredths(size as nat) / 100).len() {
                assert(48 <= dec_digits(size_hundredths(size as nat) / 100)[i] <= 57);
            }
        }
    }
    crate::text::ascii_string(&out)
}

proof fn lemma_pow1024_le(a: nat, b: nat)
    requires
        a <= b,
    ensures
        pow1024(a) <= pow1024(b),
    decreases b,
{
    if a < b && b > 0 {
        lemma_pow1024_le(a, (b - 1) as nat);
        assert(pow1024(b) == 1024 * pow1024((b - 1) as nat));
        assert(pow1024((b - 1) as nat) <= 1024 * pow1024((b - 1) as nat)) by (nonlinear_arith)
            requires
                pow1024((b - 1) as nat) >= 0,
        ;
    }
}

/// Declares url's parse-error type; its values are opaque here.
#[verifier::external_type_specification]
#[verifier::external_body]
pub struct ExUrlParseError(url::ParseError);

/// Whether a string parses as a URL; parsing depends on the string
/// alone.
pub uninterp spec fn url_parses(s: Seq<char>) -> bool;

/// The domain name inside a URL string, if the string parses and its
/// host is a name rather than an address literal; a function of the
/// text alone.
pub uninterp spec fn url_domain_of(s: Seq<char>) -> Option<Seq<char>>;

/// Relies on url's Url::parse and Url::domain: whether a string parses
/// depends on the text alone, and the domain of a parsed URL is the
/// host slice of that text when the host is a name, so it is a
/// function of the text too.
#[verifier::external_body]
fn parse_url_domain(s: &str) -> (r: Result<Option<String>, url::ParseError>)
    ensures
        (r is Ok) == url_parses(s@),
        match r {
            Ok(d) => match d {
                Some(x) => url_domain_of(s@) == Some(x@),
                None => url_domain_of(s@) is None,
            },
            Err(_) => true,
        },
{
    match url::Url::parse(s) {
        Ok(u) => Ok(u.domain().map(|d| d.to_string())),
        Err(e) => Err(e),
    }
}

/// Why no domain came back.
#[derive(Clone, Copy, PartialEq, Eq, Structural, Debug)]
pub enum UrlError {
    /// The string is not a URL at all.
    Parse,
    /// The URL's host is not a domain name (an address literal, or no
    /// host).
    NoDomain,
}

/// Turns the optional domain of a parsed URL into the function's
/// result: a missing domain is the `NoDomain` error.
pub fn domain_to_result(d: Option<String>) -> (r: Result<String, UrlError>)
    ensures
        r == match d {
            Some(s) => Ok::<String, UrlError>(s),
            None => Err::<String, UrlError>(UrlError::NoDomain),
        },
{
    match d {
        Some(s) => Ok(s),
        None => Err(UrlError::NoDomain),
    }
}

/// The domain name of a URL string: a string that does not parse gives
/// the `Parse` error, exactly then; a parsed URL yields its domain, or
/// the `NoDomain` error when its host is no domain name.
pub fn get_domain_from_url(input: &str) -> (r: Result<String, UrlError>)
    ensures
        (r == Err::<String, UrlError>(UrlError::Parse)) == !url_parses(input@),
        url_parses(input@) ==> match url_domain_of(input@) {
            Some(d) => r matches Ok(x) && x@ == d,
            None => r == Err::<String, UrlError>(UrlError::NoDomain),
        },
{
    match parse_url_domain(input) {
        Err(_) => Err(UrlError::Parse),
        Ok(d) => domain_to_result(d),
    }
}

} // verus!
