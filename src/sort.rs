//! Sorting of integer sequences, stated against vstd's `sort_by`.
use vstd::prelude::*;
use vstd::relations::{sorted_by, total_ordering};
use vstd::seq_lib::{lemma_multiset_commutative, lemma_sorted_unique};

verus! {

/// The usual order on `u64`.
pub open spec fn u64_leq() -> spec_fn(u64, u64) -> bool {
    |a: u64, b: u64| a <= b
}

pub proof fn lemma_u64_leq_total()
    ensures
        total_ordering(u64_leq()),
{
}

/// Returns the values of `s` in ascending order.
pub fn sort_ascending(s: &Vec<u64>) -> (r: Vec<u64>)
    ensures
        r@ == s@.sort_by(u64_leq()),
{
    let mut out: Vec<u64> = Vec::new();
    let mut i: usize = 0;
    proof {
        assert(s@.subrange(0, 0) =~= out@);
    }
    while i < s.len()
        invariant
            i <= s.len(),
            sorted_by(out@, u64_leq()),
            out@.to_multiset() == s@.subrange(0, i as int).to_multiset(),
        decreases s.len() - i,
    {
        let x = s[i];
        let mut p: usize = 0;
        while p < out.len() && out[p] <= x
            invariant
                p <= out.len(),
                forall|k: int| 0 <= k < p ==> out@[k] <= x,
            decreases out.len() - p,
        {
            p = p + 1;
        }
        let ghost before = out@;
        proof {
            let a = before.subrange(0, p as int);
            let b = before.subrange(p as int, before.len() as int);
            assert(before =~= a + b);
            lemma_multiset_commutative(a, b);
            lemma_multiset_commutative(a, seq![x]);
            lemma_multiset_commutative(a + seq![x], b);
            assert(before.insert(p as int, x) =~= a + seq![x] + b);
            let pre = s@.subrange(0, i as int);
            assert(s@.subrange(0, i + 1) =~= pre.push(x));
            assert(pre.push(x).to_multiset() =~= pre.to_multiset().insert(x)) by {
                vstd::seq_lib::to_multiset_build(pre, x);
            }
            assert(seq![x].to_multiset() =~= vstd::multiset::Multiset::empty().insert(x)) by {
                broadcast use vstd::seq_lib::group_to_multiset_ensures;
                vstd::seq_lib::to_multiset_build(Seq::<u64>::empty(), x);
                assert(Seq::<u64>::empty().push(x) =~= seq![x]);
            }
        }
        out.insert(p, x);
        proof {
            assert forall|m: int, n: int| 0 <= m < n < out@.len() implies #[trigger] (u64_leq())(
                out@[m],
                out@[n],
            ) by {
                if n < p {
                } else if n == p {
                } else if m < p {
                    assert(out@[n] == before[n - 1]);
                    if p < before.len() {
                        assert(!(before[p as int] <= x) || p == before.len());
                    }
                } else if m == p {
                    assert(out@[n] == before[n - 1]);
                    assert(!(before[p as int] <= x));
                    assert((u64_leq())(before[p as int], before[n - 1]));
                } else {
                    assert((u64_leq())(before[m - 1], before[n - 1]));
                }
            }
        }
        i = i + 1;
    }
    proof {
        assert(s@.subrange(0, s.len() as int) =~= s@);
        lemma_u64_leq_total();
        s@.lemma_sort_by_ensures(u64_leq());
        lemma_sorted_unique(out@, s@.sort_by(u64_leq()), u64_leq());
    }
    out
}

} // verus!

verus! {

pub open spec fn strictly_sorted<T>(a: Seq<T>, lt: spec_fn(T, T) -> bool) -> bool {
    forall|i: int, j: int| 0 <= i < j < a.len() ==> lt(#[trigger] a[i], #[trigger] a[j])
}

/// `lt` is irreflexive and transitive.
pub open spec fn strict_order<T>(lt: spec_fn(T, T) -> bool) -> bool {
    &&& forall|x: T| !#[trigger] lt(x, x)
    &&& forall|x: T, y: T, z: T| #[trigger] lt(x, y) && #[trigger] lt(y, z) ==> lt(x, z)
}

/// Two sequences strictly sorted by the same strict order, holding the
/// same elements, are equal.
pub proof fn lemma_strictly_sorted_unique<T>(a: Seq<T>, b: Seq<T>, lt: spec_fn(T, T) -> bool)
    requires
        strict_order(lt),
        strictly_sorted(a, lt),
        strictly_sorted(b, lt),
        forall|x: T| a.contains(x) <==> b.contains(x),
    ensures
        a == b,
    decreases a.len(),
{
    if a.len() == 0 {
        if b.len() > 0 {
            assert(b.contains(b[0]));
        }
        assert(a =~= b);
    } else if b.len() == 0 {
        assert(a.contains(a[0]));
    } else {
        assert(a.contains(a[0]));
        let j = choose|j: int| 0 <= j < b.len() && b[j] == a[0];
        assert(b.contains(b[0]));
        let k = choose|k: int| 0 <= k < a.len() && a[k] == b[0];
        if j > 0 {
            assert(lt(b[0], b[j]));
            if k > 0 {
                assert(lt(a[0], a[k]));
            }
        }
        assert(a[0] == b[0]);
        let a1 = a.drop_first();
        let b1 = b.drop_first();
        assert forall|x: T| a1.contains(x) <==> b1.contains(x) by {
            if a1.contains(x) {
                let p = choose|p: int| 0 <= p < a1.len() && a1[p] == x;
                assert(a[p + 1] == x);
                assert(lt(a[0], a[p + 1]));
                assert(b.contains(x));
                let q = choose|q: int| 0 <= q < b.len() && b[q] == x;
                assert(q != 0);
                assert(b1[q - 1] == x);
            }
            if b1.contains(x) {
                let p = choose|p: int| 0 <= p < b1.len() && b1[p] == x;
                assert(b[p + 1] == x);
                assert(lt(b[0], b[p + 1]));
                assert(a.contains(x));
                let q = choose|q: int| 0 <= q < a.len() && a[q] == x;
                assert(q != 0);
                assert(a1[q - 1] == x);
            }
        }
        assert forall|i: int, j: int| 0 <= i < j < a1.len() implies lt(#[trigger] a1[i], #[trigger] a1[j]) by {
            assert(a1[i] == a[i + 1] && a1[j] == a[j + 1]);
        }
        assert forall|i: int, j: int| 0 <= i < j < b1.len() implies lt(#[trigger] b1[i], #[trigger] b1[j]) by {
            assert(b1[i] == b[i + 1] && b1[j] == b[j + 1]);
        }
        lemma_strictly_sorted_unique(a1, b1, lt);
        assert(a =~= seq![a[0]] + a1);
        assert(b =~= seq![b[0]] + b1);
    }
}

} // verus!
