//! Total orders and sorting.

use vstd::prelude::*;
use vstd::seq_lib::to_multiset_build;
use vstd::seq_lib::to_multiset_insert;

verus! {

/// A type whose values are totally ordered by `le`.
pub trait TotalOrder: Sized {
    /// The order: reflexive, total and transitive.
    spec fn before(&self, other: &Self) -> bool;

    /// Decides the order.
    fn is_before(&self, other: &Self) -> (yes: bool)
        ensures
            yes == self.before(other),
    ;

    /// Any two values are comparable.
    proof fn before_total(a: &Self, b: &Self)
        ensures
            a.before(b) || b.before(a),
    ;

    /// The order is transitive.
    proof fn before_transitive(a: &Self, b: &Self, c: &Self)
        requires
            a.before(b),
            b.before(c),
        ensures
            a.before(c),
    ;
}

/// Whether every item comes before all the items behind it.
pub open spec fn sorted<T: TotalOrder>(items: Seq<T>) -> bool {
    forall|i: int, j: int| 0 <= i < j < items.len() ==> (#[trigger] items[i]).before(#[trigger] &items[j])
}

/// Sorts the items: the result holds the same items, each as often as before,
/// in ascending order.
pub fn sort<T: TotalOrder>(items: Vec<T>) -> (out: Vec<T>)
    ensures
        sorted(out@),
        out@.to_multiset() == items@.to_multiset(),
{
    let mut rest = items;
    let mut out: Vec<T> = Vec::new();
    proof {
        out@.to_multiset_ensures();
        vstd::multiset::lemma_multiset_empty_len(out@.to_multiset());
        assert(out@.to_multiset().add(rest@.to_multiset()) =~= items@.to_multiset());
    }
    while rest.len() > 0
        invariant
            sorted(out@),
            out@.to_multiset().add(rest@.to_multiset()) == items@.to_multiset(),
        decreases rest.len(),
    {
        let ghost rest_before = rest@;
        let ghost out_before = out@;
        let item = rest.pop().unwrap();
        proof {
            assert(rest_before =~= rest@.push(item));
            to_multiset_build(rest@, item);
        }
        let mut p: usize = 0;
        while p < out.len() && out[p].is_before(&item)
            invariant
                p <= out.len(),
                out@ == out_before,
                forall|q: int| 0 <= q < p ==> (#[trigger] out@[q]).before(&item),
            decreases out.len() - p,
        {
            p += 1;
        }
        proof {
            assert forall|q: int| p <= q < out@.len() implies item.before(#[trigger] &out@[q]) by {
                T::before_total(&out@[p as int], &item);
                if q > p {
                    T::before_transitive(&item, &out@[p as int], &out@[q]);
                }
            }
            to_multiset_insert(out@, p as int, item);
        }
        out.insert(p, item);
        proof {
            assert(out@.to_multiset().add(rest@.to_multiset()) =~= items@.to_multiset());
            assert forall|i: int, j: int| 0 <= i < j < out@.len() implies (#[trigger] out@[i]).before(
                #[trigger] &out@[j],
            ) by {
                if i == p {
                    assert(out@[j] == out_before[j - 1]);
                } else if j == p {
                    assert(out@[i] == out_before[i]);
                } else {
                    let a = if i < p { i } else { i - 1 };
                    let b = if j < p { j } else { j - 1 };
                    assert(out@[i] == out_before[a]);
                    assert(out@[j] == out_before[b]);
                }
            }
        }
    }
    proof {
        rest@.to_multiset_ensures();
        vstd::multiset::lemma_multiset_empty_len(rest@.to_multiset());
        assert(out@.to_multiset() =~= items@.to_multiset());
    }
    out
}

/// Two sequences that hold the same items, each as often as the other, still
/// do so after a function is applied to every item.
pub proof fn lemma_map_keeps_multiset<A, B>(a: Seq<A>, b: Seq<A>, f: spec_fn(A) -> B)
    requires
        a.to_multiset() == b.to_multiset(),
    ensures
        a.map_values(f).to_multiset() == b.map_values(f).to_multiset(),
    decreases a.len(),
{
    a.to_multiset_ensures();
    b.to_multiset_ensures();
    if a.len() == 0 {
        assert(b.len() == 0);
        assert(a.map_values(f) =~= b.map_values(f));
    } else {
        let x = a.last();
        let rest = a.drop_last();
        assert(a =~= rest.push(x));
        assert(a.contains(x));
        assert(a.to_multiset().count(x) > 0);
        assert(b.contains(x));
        let j = choose|j: int| 0 <= j < b.len() && b[j] == x;
        let others = b.remove(j);
        rest.to_multiset_ensures();
        assert(rest.to_multiset() =~= a.to_multiset().remove(x));
        assert(others.to_multiset() =~= rest.to_multiset());
        lemma_map_keeps_multiset(rest, others, f);
        assert(a.map_values(f) =~= rest.map_values(f).push(f(x)));
        assert(b.map_values(f) =~= others.map_values(f).insert(j, f(x)));
        to_multiset_build(rest.map_values(f), f(x));
        to_multiset_insert(others.map_values(f), j, f(x));
    }
}

} // verus!
