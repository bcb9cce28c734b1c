//! Sorting vectors by a total preorder.

use vstd::multiset::Multiset;
use vstd::prelude::*;

verus! {

broadcast use vstd::seq_lib::group_to_multiset_ensures;

/// A total preorder on the values of a type, with an executable test.
pub trait TotalPreorder: Sized {
    /// `a` may come before `b`.
    spec fn le(a: Self, b: Self) -> bool;

    proof fn lemma_total(a: Self, b: Self)
        ensures
            Self::le(a, b) || Self::le(b, a),
    ;

    proof fn lemma_trans(a: Self, b: Self, c: Self)
        requires
            Self::le(a, b),
            Self::le(b, c),
        ensures
            Self::le(a, c),
    ;

    fn le_exec(&self, other: &Self) -> (r: bool)
        ensures
            r == Self::le(*self, *other),
    ;
}

/// The sequence is ordered by the preorder.
pub open spec fn sorted_by<T: TotalPreorder>(s: Seq<T>) -> bool {
    forall|i: int, j: int| 0 <= i < j < s.len() ==> T::le(s[i], s[j])
}

/// Sorts a vector: the result is ordered and holds the same values. Equal
/// elements keep their order.
pub fn sort_vec<T: TotalPreorder>(v: Vec<T>) -> (r: Vec<T>)
    ensures
        sorted_by(r@),
        r@.to_multiset() == v@.to_multiset(),
{
    let ghost orig = v@;
    let mut rest = v;
    let mut out: Vec<T> = Vec::new();
    while rest.len() > 0
        invariant
            sorted_by(out@),
            out@.to_multiset().add(rest@.to_multiset()) == orig.to_multiset(),
        decreases rest@.len(),
    {
        let ghost before_rest = rest@;
        let x = rest.pop().unwrap();
        proof {
            assert(before_rest =~= rest@.push(x));
        }
        let mut p: usize = 0;
        while p < out.len() && !x.le_exec(&out[p])
            invariant
                p <= out@.len(),
                forall|k: int| 0 <= k < p ==> !T::le(x, #[trigger] out@[k]),
            decreases out@.len() - p,
        {
            p = p + 1;
        }
        let ghost before = out@;
        proof {
            assert forall|k: int| 0 <= k < p implies T::le(#[trigger] out@[k], x) by {
                T::lemma_total(out@[k], x);
            }
            if p < out@.len() {
                assert forall|k: int| p <= k < out@.len() implies T::le(x, #[trigger] out@[k]) by {
                    if k > p {
                        T::lemma_trans(x, out@[p as int], out@[k]);
                    }
                }
            }
        }
        out.insert(p, x);
        proof {
            assert(out@ =~= before.insert(p as int, x));
            assert forall|i: int, j: int| 0 <= i < j < out@.len() implies T::le(out@[i], out@[j]) by {
                if i < p && j < p {
                } else if i < p && j == p {
                } else if i < p && j > p {
                    T::lemma_trans(out@[i], x, out@[j]);
                } else if i == p {
                } else {
                    assert(out@[i] == before[i - 1]);
                    assert(out@[j] == before[j - 1]);
                }
            }
            vstd::seq_lib::to_multiset_insert(before, p as int, x);
            vstd::seq_lib::to_multiset_build(rest@, x);
            assert(out@.to_multiset().add(rest@.to_multiset()) =~= before.to_multiset().add(
                before_rest.to_multiset(),
            ));
        }
    }
    proof {
        assert(rest@.to_multiset() =~= Multiset::empty());
        assert(out@.to_multiset().add(Multiset::empty()) =~= out@.to_multiset());
    }
    out
}

/// A permutation stays a permutation when every element is mapped.
pub proof fn lemma_multiset_map<A, B>(s1: Seq<A>, s2: Seq<A>, f: spec_fn(A) -> B)
    requires
        s1.to_multiset() == s2.to_multiset(),
    ensures
        s1.map_values(f).to_multiset() == s2.map_values(f).to_multiset(),
    decreases s1.len(),
{
    vstd::seq_lib::to_multiset_len(s1);
    vstd::seq_lib::to_multiset_len(s2);
    if s1.len() == 0 {
        assert(s2.len() == 0);
        assert(s1.map_values(f) =~= s2.map_values(f));
    } else {
        let x = s1.last();
        let s1p = s1.drop_last();
        assert(s1 =~= s1p.push(x));
        vstd::seq_lib::to_multiset_build(s1p, x);
        assert(s1.to_multiset().count(x) > 0);
        assert(s2.contains(x));
        let j = choose|j: int| 0 <= j < s2.len() && s2[j] == x;
        let s2p = s2.remove(j);
        vstd::seq_lib::to_multiset_remove(s2, j);
        assert(s1p.to_multiset() =~= s2p.to_multiset());
        lemma_multiset_map(s1p, s2p, f);
        assert(s1.map_values(f) =~= s1p.map_values(f).push(f(x)));
        assert(s2.map_values(f) =~= s2p.map_values(f).insert(j, f(x)));
        vstd::seq_lib::to_multiset_build(s1p.map_values(f), f(x));
        vstd::seq_lib::to_multiset_insert(s2p.map_values(f), j, f(x));
    }
}

} // verus!
