//! Sequences up to the order of their elements.

use vstd::prelude::*;
use vstd::seq_lib::lemma_multiset_commutative;

verus! {

/// Two sequences that hold the same elements, each once, differ only in their order.
pub(crate) proof fn lemma_same_elements<T>(a: Seq<T>, b: Seq<T>)
    requires
        a.no_duplicates(),
        b.no_duplicates(),
        forall|x: T| #[trigger] a.contains(x) <==> b.contains(x),
    ensures
        a.to_multiset() == b.to_multiset(),
{
    broadcast use vstd::seq_lib::group_to_multiset_ensures;

    a.lemma_multiset_has_no_duplicates();
    b.lemma_multiset_has_no_duplicates();
    assert forall|x: T| #[trigger] a.to_multiset().count(x) == b.to_multiset().count(x) by {
        assert(a.contains(x) <==> b.contains(x));
        assert(a.to_multiset().count(x) > 0 <==> a.to_multiset().contains(x));
        assert(b.to_multiset().count(x) > 0 <==> b.to_multiset().contains(x));
    }
    assert(a.to_multiset() =~= b.to_multiset());
}

/// Sequences that differ only in their order have images that differ only in their order.
pub(crate) proof fn lemma_images<T, U>(a: Seq<T>, b: Seq<T>, f: spec_fn(T) -> U)
    requires
        a.to_multiset() == b.to_multiset(),
    ensures
        a.map_values(f).to_multiset() == b.map_values(f).to_multiset(),
    decreases a.len(),
{
    broadcast use vstd::seq_lib::group_to_multiset_ensures;

    assert(a.len() == a.to_multiset().len() && b.len() == b.to_multiset().len());
    if a.len() == 0 {
        assert(a.map_values(f) =~= b.map_values(f));
    } else {
        let x = a.last();
        assert(a[a.len() - 1] == x);
        assert(a.contains(x));
        assert(a.to_multiset().count(x) > 0);
        assert(b.contains(x));
        let k = choose|k: int| 0 <= k < b.len() && b[k] == x;
        let a1 = a.drop_last();
        let b1 = b.remove(k);
        assert(a.remove(a.len() - 1) =~= a1);
        assert(a1.to_multiset() == a.to_multiset().remove(x));
        assert(b1.to_multiset() == b.to_multiset().remove(x));
        lemma_images(a1, b1, f);
        assert(a.map_values(f) =~= a1.map_values(f).push(f(x)));
        assert(b1.map_values(f) =~= b.map_values(f).remove(k));
        let m = b.map_values(f);
        assert(m[k] == f(x));
        assert(m.remove(k).to_multiset() == m.to_multiset().remove(f(x)));
        assert(m.contains(m[k]));
        assert(m.to_multiset().count(f(x)) > 0);
        assert(m.to_multiset() =~= m.to_multiset().remove(f(x)).insert(f(x)));
    }
}

/// What a sequence holds that is put together from two.
pub(crate) proof fn lemma_together<T>(a: Seq<T>, b: Seq<T>)
    ensures
        (a + b).to_multiset() == a.to_multiset().add(b.to_multiset()),
{
    lemma_multiset_commutative(a, b);
}

/// What a sequence holds to which one element was added.
pub(crate) proof fn lemma_pushed<T>(a: Seq<T>, x: T)
    ensures
        a.push(x).to_multiset() == a.to_multiset().insert(x),
{
    broadcast use vstd::seq_lib::group_to_multiset_ensures;

}

} // verus!
