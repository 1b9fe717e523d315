//! Ranking of probe results: a total preorder per record kind and one
//! insertion sort shared by all of them.
use vstd::prelude::*;
use vstd::relations::sorted_by;
use vstd::multiset::Multiset;

verus! {

/// A record kind with the total preorder its results are ranked by.
pub trait Ranked: Sized {
    spec fn leq(a: Self, b: Self) -> bool;

    /// The order relates every two records, one way or the other.
    proof fn lemma_leq_total(a: Self, b: Self)
        ensures
            Self::leq(a, b) || Self::leq(b, a),
    ;

    /// The order is transitive.
    proof fn lemma_leq_trans(a: Self, b: Self, c: Self)
        requires
            Self::leq(a, b),
            Self::leq(b, c),
        ensures
            Self::leq(a, c),
    ;

    fn leq_exec(&self, other: &Self) -> (r: bool)
        ensures
            r == Self::leq(*self, *other),
    ;
}

/// First position in the sorted `out` at which `x` could be inserted
/// keeping the order.
fn lower_bound<T: Ranked>(out: &Vec<T>, x: &T) -> (j: usize)
    requires
        sorted_by(out@, |a: T, b: T| T::leq(a, b)),
    ensures
        j <= out@.len(),
        forall|k: int| 0 <= k < j ==> T::leq(#[trigger] out@[k], *x),
        j < out@.len() ==> !T::leq(out@[j as int], *x),
{
    let n: usize = out.len();
    let mut j: usize = 0;
    while j < n
        invariant
            0 <= j <= n,
            n == out@.len(),
            forall|k: int| 0 <= k < j ==> T::leq(#[trigger] out@[k], *x),
        decreases n - j,
    {
        if out[j].leq_exec(x) {
            j = j + 1;
        } else {
            return j;
        }
    }
    j
}

/// Insertion sort under the `Ranked` order; the result holds exactly the
/// elements given, in sorted order.
pub fn sort_ranked<T: Ranked>(v: Vec<T>) -> (r: Vec<T>)
    ensures
        sorted_by(r@, |a: T, b: T| T::leq(a, b)),
        r@.to_multiset() == v@.to_multiset(),
{
    let ghost orig: Seq<T> = v@;
    let mut rest: Vec<T> = v;
    let mut out: Vec<T> = Vec::new();
    proof {
        vstd::seq_lib::lemma_multiset_commutative(out@, rest@);
        assert(out@ + rest@ =~= rest@);
    }
    while rest.len() > 0
        invariant
            sorted_by(out@, |a: T, b: T| T::leq(a, b)),
            out@.to_multiset().add(rest@.to_multiset()) == orig.to_multiset(),
        decreases rest@.len(),
    {
        let ghost entry_rest: Seq<T> = rest@;
        let popped: Option<T> = rest.pop();
        match popped {
            Some(x) => {
                proof {
                    assert(entry_rest =~= rest@.push(x));
                    vstd::seq_lib::to_multiset_build(rest@, x);
                    assert(rest@.push(x).to_multiset() =~= rest@.to_multiset().insert(x));
                }
                let j: usize = lower_bound(&out, &x);
                let ghost o: Seq<T> = out@;
                out.insert(j, x);
                proof {
                    o.insert_ensures(j as int, x);
                    vstd::seq_lib::to_multiset_insert(o, j as int, x);
                    let ord = |a: T, b: T| T::leq(a, b);
                    assert forall|a: int, b: int|
                        0 <= a < b < out@.len() implies #[trigger] ord(out@[a], out@[b]) by {
                        if b < j {
                            assert(ord(o[a], o[b]));
                        } else if b == j {
                            assert(T::leq(o[a], x));
                        } else if a < j {
                            assert(ord(o[a], o[b - 1]));
                        } else if a == j {
                            // x goes before o[j] and the tail is above o[j]
                            if j < o.len() {
                                T::lemma_leq_total(o[j as int], x);
                                assert(T::leq(x, o[j as int]));
                                if b - 1 > j {
                                    assert(ord(o[j as int], o[b - 1]));
                                    T::lemma_leq_trans(x, o[j as int], o[b - 1]);
                                }
                            }
                        } else {
                            assert(ord(o[a - 1], o[b - 1]));
                        }
                    }
                    assert(out@.to_multiset().add(rest@.to_multiset()) =~= orig.to_multiset()) by {
                        broadcast use vstd::multiset::group_multiset_axioms;

                        assert(o.to_multiset().add(entry_rest.to_multiset()) == orig.to_multiset());
                        assert(entry_rest.to_multiset() == rest@.to_multiset().insert(x));
                        assert(out@.to_multiset() == o.to_multiset().insert(x));
                    }
                }
            },
            None => {},
        }
    }
    proof {
        broadcast use vstd::multiset::group_multiset_axioms;
        broadcast use vstd::seq_lib::group_to_multiset_ensures;

        vstd::multiset::lemma_multiset_empty_len(rest@.to_multiset());
        assert(rest@.to_multiset().len() == rest@.len());
        assert(out@.to_multiset() =~= orig.to_multiset());
    }
    out
}

} // verus!
