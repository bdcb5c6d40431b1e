//! Sorting of pairs of numbers.

use vstd::prelude::*;
use vstd::relations::*;
use vstd::seq_lib::*;

verus! {

/// The lexicographic order of pairs.
pub open spec fn before(a: (u64, u64), b: (u64, u64)) -> bool {
    a.0 < b.0 || (a.0 == b.0 && a.1 <= b.1)
}

/// The pairs of a sequence in order.
pub open spec fn sorted(s: Seq<(u64, u64)>) -> Seq<(u64, u64)> {
    s.sort_by(|a: (u64, u64), b: (u64, u64)| before(a, b))
}

pub open spec fn ordered(s: Seq<(u64, u64)>) -> bool {
    forall|i: int, j: int| 0 <= i < j < s.len() ==> before(#[trigger] s[i], #[trigger] s[j])
}

/// An ordered sequence of the same pairs is the sorted one.
pub proof fn law_sorted(s: Seq<(u64, u64)>, t: Seq<(u64, u64)>)
    requires
        ordered(t),
        s.to_multiset() == t.to_multiset(),
    ensures
        t == sorted(s),
{
    let leq = |a: (u64, u64), b: (u64, u64)| before(a, b);
    assert(total_ordering(leq));
    s.lemma_sort_by_ensures(leq);
    assert(sorted_by(t, leq));
    lemma_sorted_unique(t, s.sort_by(leq), leq);
}

/// Sorting keeps the pairs and puts them in order.
pub proof fn law_sorted_keeps(s: Seq<(u64, u64)>)
    ensures
        ordered(sorted(s)),
        sorted(s).to_multiset() == s.to_multiset(),
        sorted(s).len() == s.len(),
{
    let leq = |a: (u64, u64), b: (u64, u64)| before(a, b);
    assert(total_ordering(leq));
    s.lemma_sort_by_ensures(leq);
    assert forall|i: int, j: int| 0 <= i < j < sorted(s).len() implies before(
        #[trigger] sorted(s)[i],
        #[trigger] sorted(s)[j],
    ) by {
        assert(leq(sorted(s)[i], sorted(s)[j]));
    }
    broadcast use group_to_multiset_ensures;

    assert(sorted(s).to_multiset().len() == s.to_multiset().len());
}

/// Every pair of a sequence is in its sorted form, and the other way round.
pub proof fn law_sorted_members(s: Seq<(u64, u64)>, x: (u64, u64))
    ensures
        s.contains(x) <==> sorted(s).contains(x),
{
    broadcast use group_to_multiset_ensures;

    law_sorted_keeps(s);
    assert(s.contains(x) <==> s.to_multiset().count(x) > 0);
    assert(sorted(s).contains(x) <==> sorted(s).to_multiset().count(x) > 0);
}

fn not_after(a: (u64, u64), b: (u64, u64)) -> (r: bool)
    ensures
        r == before(a, b),
{
    a.0 < b.0 || (a.0 == b.0 && a.1 <= b.1)
}

fn merge(a: &Vec<(u64, u64)>, b: &Vec<(u64, u64)>) -> (out: Vec<(u64, u64)>)
    requires
        ordered(a@),
        ordered(b@),
    ensures
        ordered(out@),
        out@.to_multiset() == a@.to_multiset().add(b@.to_multiset()),
{
    let mut out: Vec<(u64, u64)> = Vec::new();
    let mut i: usize = 0;
    let mut j: usize = 0;
    proof {
        broadcast use group_to_multiset_ensures;

        assert(a@.subrange(0, 0) =~= Seq::empty());
        assert(b@.subrange(0, 0) =~= Seq::empty());
        assert(out@.to_multiset() =~= a@.subrange(0, 0).to_multiset().add(
            b@.subrange(0, 0).to_multiset(),
        ));
    }
    while i < a.len() || j < b.len()
        invariant
            ordered(a@),
            ordered(b@),
            ordered(out@),
            i <= a@.len(),
            j <= b@.len(),
            out@.to_multiset() == a@.subrange(0, i as int).to_multiset().add(
                b@.subrange(0, j as int).to_multiset(),
            ),
            forall|k: int, m: int|
                0 <= k < out@.len() && i <= m < a@.len() ==> before(
                    #[trigger] out@[k],
                    #[trigger] a@[m],
                ),
            forall|k: int, m: int|
                0 <= k < out@.len() && j <= m < b@.len() ==> before(
                    #[trigger] out@[k],
                    #[trigger] b@[m],
                ),
        decreases a.len() - i + b.len() - j,
    {
        broadcast use group_to_multiset_ensures;

        let left: bool = j >= b.len() || (i < a.len() && not_after(a[i], b[j]));
        let ghost o = out@;
        if left {
            out.push(a[i]);
            proof {
                assert(a@.subrange(0, i + 1) =~= a@.subrange(0, i as int).push(a@[i as int]));
                assert(out@.to_multiset() =~= a@.subrange(0, i + 1).to_multiset().add(
                    b@.subrange(0, j as int).to_multiset(),
                ));
            }
            i += 1;
        } else {
            out.push(b[j]);
            proof {
                assert(b@.subrange(0, j + 1) =~= b@.subrange(0, j as int).push(b@[j as int]));
                assert(out@.to_multiset() =~= a@.subrange(0, i as int).to_multiset().add(
                    b@.subrange(0, j + 1).to_multiset(),
                ));
            }
            j += 1;
        }
    }
    assert(a@.subrange(0, i as int) =~= a@);
    assert(b@.subrange(0, j as int) =~= b@);
    out
}

/// The pairs in order.
pub fn sort(v: &[(u64, u64)]) -> (out: Vec<(u64, u64)>)
    ensures
        out@ == sorted(v@),
    decreases v@.len(),
{
    let n: usize = v.len();
    if n <= 1 {
        let mut out: Vec<(u64, u64)> = Vec::new();
        if n == 1 {
            out.push(v[0]);
        }
        assert(out@ =~= v@);
        proof {
            law_sorted(v@, out@);
        }
        return out;
    }
    let half: usize = n / 2;
    let low = vstd::slice::slice_subrange(v, 0, half);
    let high = vstd::slice::slice_subrange(v, half, n);
    let a = sort(low);
    let b = sort(high);
    proof {
        law_sorted_keeps(low@);
        law_sorted_keeps(high@);
    }
    let out = merge(&a, &b);
    proof {
        assert(v@ =~= low@ + high@);
        lemma_multiset_commutative(low@, high@);
        law_sorted(v@, out@);
    }
    out
}


/// Sorting makes no duplicates.
pub proof fn law_sorted_distinct(s: Seq<(u64, u64)>)
    requires
        s.no_duplicates(),
    ensures
        sorted(s).no_duplicates(),
{
    law_sorted_keeps(s);
    s.lemma_multiset_has_no_duplicates();
    sorted(s).lemma_multiset_has_no_duplicates_conv();
}

}
