//! Byte-level text utilities shared by the parsers and the CSV writer.
use vstd::prelude::*;

verus! {

pub const ASCII_CR: u8 = 13;
pub const ASCII_LF: u8 = 10;

/// Index of the first occurrence of `b` in `s`, if any.
pub open spec fn find_byte(s: Seq<u8>, b: u8) -> Option<int>
    decreases s.len(),
{
    if s.len() == 0 {
        None
    } else if s[0] == b {
        Some(0int)
    } else {
        match find_byte(s.skip(1), b) {
            Some(i) => Some(i + 1),
            None => None,
        }
    }
}

pub proof fn lemma_find_byte(s: Seq<u8>, b: u8)
    ensures
        match find_byte(s, b) {
            Some(i) => 0 <= i < s.len() && s[i] == b && (forall|j: int| 0 <= j < i ==> s[j] != b),
            None => forall|j: int| 0 <= j < s.len() ==> s[j] != b,
        },
    decreases s.len(),
{
    if s.len() != 0 && s[0] != b {
        lemma_find_byte(s.skip(1), b);
        match find_byte(s.skip(1), b) {
            Some(i) => {
                assert(forall|j: int| 0 <= j < i ==> s.skip(1)[j] != b);
                assert forall|j: int| 0 <= j < i + 1 implies s[j] != b by {
                    if j > 0 {
                        assert(s[j] == s.skip(1)[j - 1]);
                    }
                }
            },
            None => {
                assert forall|j: int| 0 <= j < s.len() implies s[j] != b by {
                    if j > 0 {
                        assert(s[j] == s.skip(1)[j - 1]);
                    }
                }
            },
        }
    }
}

/// `find_byte` returns exactly the first position whose byte is `b`.
pub proof fn lemma_find_byte_is_first(s: Seq<u8>, b: u8, i: int)
    requires
        0 <= i < s.len(),
        s[i] == b,
        forall|j: int| 0 <= j < i ==> s[j] != b,
    ensures
        find_byte(s, b) == Some(i),
{
    lemma_find_byte(s, b);
    match find_byte(s, b) {
        Some(k) => {
            if k < i {
                assert(s[k] != b);
            }
            if i < k {
                assert(s[i] != b);
            }
        },
        None => {
            assert(s[i] != b);
        },
    }
}

/// The tokens of `s` between occurrences of `sep` (one more token than
/// separators; an empty input gives one empty token).
pub open spec fn split_byte(s: Seq<u8>, sep: u8) -> Seq<Seq<u8>>
    decreases s.len(),
{
    match find_byte(s, sep) {
        None => seq![s],
        Some(i) => {
            if 0 <= i < s.len() {
                seq![s.take(i)] + split_byte(s.skip(i + 1), sep)
            } else {
                seq![s]
            }
        },
    }
}

pub proof fn lemma_split_byte_len(s: Seq<u8>, sep: u8)
    ensures
        split_byte(s, sep).len() >= 1,
    decreases s.len(),
{
    match find_byte(s, sep) {
        None => {},
        Some(i) => {
            lemma_find_byte(s, sep);
            if 0 <= i < s.len() {
                lemma_split_byte_len(s.skip(i + 1), sep);
            }
        },
    }
}

/// First occurrence of `b` in `s`, by a linear scan.
pub fn find_byte_in(s: &[u8], b: u8) -> (r: Option<usize>)
    ensures
        match r {
            Some(i) => find_byte(s@, b) == Some(i as int),
            None => find_byte(s@, b) is None,
        },
{
    let n: usize = s.len();
    let mut i: usize = 0;
    while i < n
        invariant
            0 <= i <= n,
            n == s@.len(),
            forall|j: int| 0 <= j < i ==> s@[j] != b,
        decreases n - i,
    {
        if s[i] == b {
            proof {
                lemma_find_byte_is_first(s@, b, i as int);
            }
            return Some(i);
        }
        i = i + 1;
    }
    proof {
        lemma_find_byte(s@, b);
        if find_byte(s@, b) is Some {
            let k = find_byte(s@, b)->Some_0;
            assert(s@[k] != b);
        }
    }
    None
}

/// Splits `s` on `sep`; the flattening of the result with `sep` put back
/// gives `s` again.
pub fn split_on_byte(s: &[u8], sep: u8) -> (r: Vec<Vec<u8>>)
    ensures
        r@.map_values(|t: Vec<u8>| t@) == split_byte(s@, sep),
        r@.len() >= 1,
{
    let mut acc: Vec<Vec<u8>> = Vec::new();
    let mut start: usize = 0;
    let n: usize = s.len();
    proof {
        assert(s@.skip(0) =~= s@);
        assert(acc@.map_values(|t: Vec<u8>| t@) =~= Seq::<Seq<u8>>::empty());
        assert(Seq::<Seq<u8>>::empty() + split_byte(s@, sep) =~= split_byte(s@, sep));
    }
    loop
        invariant
            0 <= start <= n,
            n == s@.len(),
            split_byte(s@, sep) == acc@.map_values(|t: Vec<u8>| t@) + split_byte(
                s@.skip(start as int),
                sep,
            ),
        decreases n - start,
    {
        let rest: &[u8] = &s[start..n];
        assert(rest@ == s@.skip(start as int));
        match find_byte_in(rest, sep) {
            Some(i) => {
                proof {
                    lemma_find_byte(rest@, sep);
                }
                let tok: Vec<u8> = vstd::slice::slice_to_vec(&rest[0..i]);
                proof {
                    assert(tok@ == rest@.take(i as int));
                }
                acc.push(tok);
                start = start + i + 1;
                proof {
                    assert(rest@.skip(i + 1) == s@.skip(start as int));
                    assert(acc@.map_values(|t: Vec<u8>| t@) == acc@.drop_last().map_values(
                        |t: Vec<u8>| t@,
                    ).push(rest@.take(i as int)));
                    assert(split_byte(s@, sep) == acc@.map_values(|t: Vec<u8>| t@) + split_byte(
                        s@.skip(start as int),
                        sep,
                    ));
                }
            },
            None => {
                let tok: Vec<u8> = vstd::slice::slice_to_vec(rest);
                acc.push(tok);
                proof {
                    assert(split_byte(rest@, sep) == seq![rest@]);
                    assert(acc@.map_values(|t: Vec<u8>| t@) == acc@.drop_last().map_values(
                        |t: Vec<u8>| t@,
                    ).push(rest@));
                    assert(acc@.map_values(|t: Vec<u8>| t@) == split_byte(s@, sep));
                    lemma_split_byte_len(s@, sep);
                }
                return acc;
            },
        }
    }
}

/// Index of the first CRLF pair in `s`, if any.
pub open spec fn find_crlf(s: Seq<u8>) -> Option<int>
    decreases s.len(),
{
    if s.len() < 2 {
        None
    } else if s[0] == ASCII_CR && s[1] == ASCII_LF {
        Some(0int)
    } else {
        match find_crlf(s.skip(1)) {
            Some(i) => Some(i + 1),
            None => None,
        }
    }
}

pub proof fn lemma_find_crlf(s: Seq<u8>)
    ensures
        match find_crlf(s) {
            Some(i) => 0 <= i && i + 2 <= s.len() && s[i] == ASCII_CR && s[i + 1] == ASCII_LF && (
            forall|j: int| 0 <= j < i ==> !(#[trigger] s[j] == ASCII_CR && s[j + 1] == ASCII_LF)),
            None => forall|j: int|
                0 <= j && j + 2 <= s.len() ==> !(#[trigger] s[j] == ASCII_CR && s[j + 1] == ASCII_LF),
        },
    decreases s.len(),
{
    if s.len() >= 2 && !(s[0] == ASCII_CR && s[1] == ASCII_LF) {
        lemma_find_crlf(s.skip(1));
        match find_crlf(s.skip(1)) {
            Some(i) => {
                assert forall|j: int|
                    0 <= j < i + 1 implies !(#[trigger] s[j] == ASCII_CR && s[j + 1]
                    == ASCII_LF) by {
                    if j > 0 {
                        assert(!(s.skip(1)[j - 1] == ASCII_CR && s.skip(1)[j] == ASCII_LF));
                    }
                }
            },
            None => {
                assert forall|j: int|
                    0 <= j && j + 2 <= s.len() implies !(#[trigger] s[j] == ASCII_CR && s[j + 1]
                    == ASCII_LF) by {
                    if j > 0 {
                        assert(!(s.skip(1)[j - 1] == ASCII_CR && s.skip(1)[j] == ASCII_LF));
                    }
                }
            },
        }
    }
}

pub proof fn lemma_find_crlf_is_first(s: Seq<u8>, i: int)
    requires
        0 <= i,
        i + 2 <= s.len(),
        s[i] == ASCII_CR,
        s[i + 1] == ASCII_LF,
        forall|j: int| 0 <= j < i ==> !(#[trigger] s[j] == ASCII_CR && s[j + 1] == ASCII_LF),
    ensures
        find_crlf(s) == Some(i),
{
    lemma_find_crlf(s);
    match find_crlf(s) {
        Some(k) => {
            if k < i {
                assert(!(s[k] == ASCII_CR && s[k + 1] == ASCII_LF));
            }
            if i < k {
                assert(!(s[i] == ASCII_CR && s[i + 1] == ASCII_LF));
            }
        },
        None => {
            assert(!(s[i] == ASCII_CR && s[i + 1] == ASCII_LF));
        },
    }
}

/// The lines of `s` between CRLF pairs.
pub open spec fn split_crlf(s: Seq<u8>) -> Seq<Seq<u8>>
    decreases s.len(),
{
    match find_crlf(s) {
        None => seq![s],
        Some(i) => {
            if 0 <= i && i + 2 <= s.len() {
                seq![s.take(i)] + split_crlf(s.skip(i + 2))
            } else {
                seq![s]
            }
        },
    }
}

/// First CRLF pair, by a linear scan.
pub fn find_crlf_in(s: &[u8]) -> (r: Option<usize>)
    ensures
        match r {
            Some(i) => find_crlf(s@) == Some(i as int),
            None => find_crlf(s@) is None,
        },
{
    let n: usize = s.len();
    if n < 2 {
        proof {
            lemma_find_crlf(s@);
        }
        return None;
    }
    let mut i: usize = 0;
    while i <= n - 2
        invariant
            0 <= i,
            i <= n - 1,
            n == s@.len(),
            n >= 2,
            forall|j: int| 0 <= j < i ==> !(#[trigger] s@[j] == ASCII_CR && s@[j + 1] == ASCII_LF),
        decreases n - i,
    {
        if s[i] == ASCII_CR && s[i + 1] == ASCII_LF {
            proof {
                lemma_find_crlf_is_first(s@, i as int);
            }
            return Some(i);
        }
        i = i + 1;
    }
    proof {
        lemma_find_crlf(s@);
        if find_crlf(s@) is Some {
            let k = find_crlf(s@)->Some_0;
            assert(!(s@[k] == ASCII_CR && s@[k + 1] == ASCII_LF));
        }
    }
    None
}

/// Splits `s` into its CRLF-separated lines.
pub fn split_on_crlf(s: &[u8]) -> (r: Vec<Vec<u8>>)
    ensures
        r@.map_values(|t: Vec<u8>| t@) == split_crlf(s@),
        r@.len() >= 1,
{
    let mut acc: Vec<Vec<u8>> = Vec::new();
    let mut start: usize = 0;
    let n: usize = s.len();
    proof {
        assert(s@.skip(0) =~= s@);
        assert(acc@.map_values(|t: Vec<u8>| t@) =~= Seq::<Seq<u8>>::empty());
        assert(Seq::<Seq<u8>>::empty() + split_crlf(s@) =~= split_crlf(s@));
    }
    loop
        invariant
            0 <= start <= n,
            n == s@.len(),
            split_crlf(s@) == acc@.map_values(|t: Vec<u8>| t@) + split_crlf(s@.skip(start as int)),
        decreases n - start,
    {
        let rest: &[u8] = &s[start..n];
        assert(rest@ == s@.skip(start as int));
        match find_crlf_in(rest) {
            Some(i) => {
                proof {
                    lemma_find_crlf(rest@);
                }
                let tok: Vec<u8> = vstd::slice::slice_to_vec(&rest[0..i]);
                proof {
                    assert(tok@ == rest@.take(i as int));
                }
                acc.push(tok);
                start = start + i + 2;
                proof {
                    assert(rest@.skip(i + 2) == s@.skip(start as int));
                    assert(acc@.map_values(|t: Vec<u8>| t@) == acc@.drop_last().map_values(
                        |t: Vec<u8>| t@,
                    ).push(rest@.take(i as int)));
                    assert(split_crlf(s@) == acc@.map_values(|t: Vec<u8>| t@) + split_crlf(
                        s@.skip(start as int),
                    ));
                }
            },
            None => {
                let tok: Vec<u8> = vstd::slice::slice_to_vec(rest);
                acc.push(tok);
                proof {
                    assert(split_crlf(rest@) == seq![rest@]);
                    assert(acc@.map_values(|t: Vec<u8>| t@) == acc@.drop_last().map_values(
                        |t: Vec<u8>| t@,
                    ).push(rest@));
                    assert(acc@.map_values(|t: Vec<u8>| t@) == split_crlf(s@));
                    assert(acc@.len() >= 1);
                }
                return acc;
            },
        }
    }
}

/// True when `n` occurs contiguously in `h`.
pub open spec fn contains_seq(h: Seq<u8>, n: Seq<u8>) -> bool {
    exists|i: int| 0 <= i && i + n.len() <= h.len() && #[trigger] h.subrange(i, i + n.len()) == n
}

/// Byte-wise equality of two slices.
pub fn eq_bytes(a: &[u8], b: &[u8]) -> (r: bool)
    ensures
        r == (a@ == b@),
{
    if a.len() != b.len() {
        assert(a@ != b@);
        return false;
    }
    let n: usize = a.len();
    let mut i: usize = 0;
    while i < n
        invariant
            0 <= i <= n,
            n == a@.len() == b@.len(),
            forall|j: int| 0 <= j < i ==> a@[j] == b@[j],
        decreases n - i,
    {
        if a[i] != b[i] {
            return false;
        }
        i = i + 1;
    }
    proof {
        assert(a@ =~= b@);
    }
    true
}

/// Naive substring search.
pub fn contains_bytes(h: &[u8], n: &[u8]) -> (r: bool)
    ensures
        r == contains_seq(h@, n@),
{
    let hl: usize = h.len();
    let nl: usize = n.len();
    if nl > hl {
        return false;
    }
    if nl == 0 {
        proof {
            assert(contains_seq(h@, n@)) by {
                assert(h@.subrange(0, 0 + n@.len() as int) =~= n@);
            }
        }
        return true;
    }
    let mut i: usize = 0;
    while i <= hl - nl
        invariant
            0 <= i <= hl - nl + 1,
            1 <= nl <= hl,
            hl == h@.len(),
            nl == n@.len(),
            forall|k: int| 0 <= k < i ==> #[trigger] h@.subrange(k, k + n@.len()) != n@,
        decreases hl + 1 - nl - i,
    {
        let w: &[u8] = &h[i..i + nl];
        assert(w@ == h@.subrange(i as int, i + n@.len()));
        if eq_bytes(w, n) {
            return true;
        }
        i = i + 1;
    }
    false
}

/// ASCII upper-case letters mapped to lower case; all else unchanged.
pub open spec fn lower_byte(b: u8) -> u8 {
    if 65 <= b <= 90 {
        (b + 32) as u8
    } else {
        b
    }
}

/// ASCII lower-case letters mapped to upper case; all else unchanged.
pub open spec fn upper_byte(b: u8) -> u8 {
    if 97 <= b <= 122 {
        (b - 32) as u8
    } else {
        b
    }
}

pub fn to_lower_bytes(s: &[u8]) -> (r: Vec<u8>)
    ensures
        r@ == s@.map_values(|b: u8| lower_byte(b)),
{
    let n: usize = s.len();
    let mut out: Vec<u8> = Vec::new();
    let mut i: usize = 0;
    while i < n
        invariant
            0 <= i <= n,
            n == s@.len(),
            out@ == s@.take(i as int).map_values(|b: u8| lower_byte(b)),
        decreases n - i,
    {
        let b: u8 = s[i];
        if 65 <= b && b <= 90 {
            out.push(b + 32);
        } else {
            out.push(b);
        }
        i = i + 1;
        proof {
            assert(s@.take(i as int) == s@.take(i - 1).push(s@[i - 1]));
            assert(out@ =~= s@.take(i as int).map_values(|b: u8| lower_byte(b)));
        }
    }
    proof {
        assert(s@.take(n as int) == s@);
    }
    out
}

pub fn to_upper_bytes(s: &[u8]) -> (r: Vec<u8>)
    ensures
        r@ == s@.map_values(|b: u8| upper_byte(b)),
{
    let n: usize = s.len();
    let mut out: Vec<u8> = Vec::new();
    let mut i: usize = 0;
    while i < n
        invariant
            0 <= i <= n,
            n == s@.len(),
            out@ == s@.take(i as int).map_values(|b: u8| upper_byte(b)),
        decreases n - i,
    {
        let b: u8 = s[i];
        if 97 <= b && b <= 122 {
            out.push(b - 32);
        } else {
            out.push(b);
        }
        i = i + 1;
        proof {
            assert(s@.take(i as int) == s@.take(i - 1).push(s@[i - 1]));
            assert(out@ =~= s@.take(i as int).map_values(|b: u8| upper_byte(b)));
        }
    }
    proof {
        assert(s@.take(n as int) == s@);
    }
    out
}

/// True when `p` is a prefix of `s`.
pub fn starts_with_bytes(s: &[u8], p: &[u8]) -> (r: bool)
    ensures
        r == (p@.len() <= s@.len() && s@.take(p@.len() as int) == p@),
{
    if p.len() > s.len() {
        return false;
    }
    let w: &[u8] = &s[0..p.len()];
    assert(w@ == s@.take(p@.len() as int));
    eq_bytes(w, p)
}

/// Relies on String::from_utf8: ASCII bytes are valid UTF-8 and decode to
/// the characters with the same code points.
#[verifier::external_body]
pub fn ascii_string(bytes: &Vec<u8>) -> (r: String)
    requires
        forall|i: int| 0 <= i < bytes@.len() ==> bytes@[i] < 128,
    ensures
        r@ == bytes@.map_values(|b: u8| b as char),
{
    String::from_utf8(bytes.clone()).unwrap_or_default()
}

} // verus!
