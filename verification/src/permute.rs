//! Sequences that hold the same items in another order.

use crate::select;
use vstd::multiset::Multiset;
use vstd::prelude::*;
use vstd::seq_lib;

verus! {

/// Whether both sequences hold the same items, each as often.
pub open spec fn permuted<T>(a: Seq<T>, b: Seq<T>) -> bool {
    a.to_multiset() == b.to_multiset()
}

/// Both sequences are equally long and contain the same items.
pub proof fn lemma_permuted<T>(a: Seq<T>, b: Seq<T>)
    requires
        permuted(a, b),
    ensures
        a.len() == b.len(),
        forall|x: T| #[trigger] a.contains(x) ==> b.contains(x),
        forall|i: int| 0 <= i < a.len() ==> b.contains(#[trigger] a[i]),
{
    broadcast use vstd::seq_lib::group_to_multiset_ensures;

    assert(a.to_multiset().len() == b.to_multiset().len());
    assert forall|x: T| #[trigger] a.contains(x) implies b.contains(x) by {
        assert(a.to_multiset().count(x) > 0);
        assert(b.to_multiset().count(x) > 0);
    }
    assert forall|i: int| 0 <= i < a.len() implies b.contains(#[trigger] a[i]) by {
        assert(a.contains(a[i]));
    }
}

/// Sequences that are permuted stay so when permuted sequences follow them.
pub proof fn lemma_permuted_concat<T>(a: Seq<T>, b: Seq<T>, c: Seq<T>, d: Seq<T>)
    requires
        permuted(a, b),
        permuted(c, d),
    ensures
        permuted(a + c, b + d),
{
    seq_lib::lemma_multiset_commutative(a, c);
    seq_lib::lemma_multiset_commutative(b, d);
}

/// Sequences without duplicates that contain the same items are permuted.
pub proof fn lemma_same_items<T>(a: Seq<T>, b: Seq<T>)
    requires
        a.no_duplicates(),
        b.no_duplicates(),
        forall|x: T| #[trigger] a.contains(x) <==> b.contains(x),
    ensures
        permuted(a, b),
{
    broadcast use vstd::seq_lib::group_to_multiset_ensures;

    a.lemma_multiset_has_no_duplicates();
    b.lemma_multiset_has_no_duplicates();
    assert forall|x: T| #[trigger] a.to_multiset().count(x) == b.to_multiset().count(x) by {
        if a.contains(x) {
            assert(a.to_multiset().contains(x));
            assert(b.to_multiset().contains(x));
        } else {
            assert(a.to_multiset().count(x) == 0);
            assert(b.to_multiset().count(x) == 0);
        }
    }
    assert(a.to_multiset() =~= b.to_multiset());
}

/// What is added to a multiset for an item: the image of the item if it is picked.
pub open spec fn picked<T>(pick: spec_fn(T) -> bool, image: spec_fn(T) -> T) -> spec_fn(
    T,
    Multiset<T>,
) -> Multiset<T> {
    |x: T, acc: Multiset<T>|
        if pick(x) {
            acc.insert(image(x))
        } else {
            acc
        }
}

/// The images of the items at selected positions, as a multiset, are gathered item
/// by item.
proof fn lemma_gathered<T>(
    items: Seq<T>,
    at: spec_fn(int) -> bool,
    pick: spec_fn(T) -> bool,
    image: spec_fn(T) -> T,
    acc: Multiset<T>,
)
    requires
        forall|i: int| 0 <= i < items.len() ==> #[trigger] at(i) == pick(items[i]),
    ensures
        select::select(0, items.len() as int, at).map_values(
            |i: int| image(items[i]),
        ).to_multiset().add(acc) == items.fold_right(picked(pick, image), acc),
    decreases items.len(),
{
    broadcast use vstd::seq_lib::group_to_multiset_ensures;

    let n = items.len() as int;
    let f = picked(pick, image);
    let got = select::select(0, n, at).map_values(|i: int| image(items[i]));
    if n == 0 {
        assert(got =~= Seq::empty());
        assert(got.to_multiset().add(acc) =~= acc);
    } else {
        let prev = items.drop_last();
        let x = items.last();
        let before = select::select(0, n - 1, at).map_values(|i: int| image(prev[i]));
        assert forall|i: int| 0 <= i < prev.len() implies #[trigger] at(i) == pick(prev[i]) by {
            assert(items[i] == prev[i]);
        }
        lemma_gathered(prev, at, pick, image, f(x, acc));
        select::lemma_select(0, n - 1, at);
        assert(at(n - 1) == pick(items[n - 1]));
        if pick(x) {
            assert(got =~= before.push(image(x)));
            assert(got.to_multiset() =~= before.to_multiset().insert(image(x)));
            assert(got.to_multiset().add(acc) =~= before.to_multiset().add(f(x, acc)));
        } else {
            assert(got =~= before);
        }
    }
}

/// Picking items out of permuted sequences gives permuted sequences.
pub proof fn lemma_permuted_picks<T>(
    a: Seq<T>,
    b: Seq<T>,
    in_a: spec_fn(int) -> bool,
    in_b: spec_fn(int) -> bool,
    pick: spec_fn(T) -> bool,
    image: spec_fn(T) -> T,
)
    requires
        permuted(a, b),
        forall|i: int| 0 <= i < a.len() ==> #[trigger] in_a(i) == pick(a[i]),
        forall|i: int| 0 <= i < b.len() ==> #[trigger] in_b(i) == pick(b[i]),
    ensures
        permuted(
            select::select(0, a.len() as int, in_a).map_values(|i: int| image(a[i])),
            select::select(0, b.len() as int, in_b).map_values(|i: int| image(b[i])),
        ),
{
    let f = picked(pick, image);
    let none = Multiset::<T>::empty();
    lemma_gathered(a, in_a, pick, image, none);
    lemma_gathered(b, in_b, pick, image, none);
    assert forall|x: T, y: T, v: Multiset<T>| #[trigger] f(x, f(y, v)) == f(y, f(x, v)) by {
        assert(f(x, f(y, v)) =~= f(y, f(x, v)));
    }
    seq_lib::lemma_fold_right_permutation(a, b, f, none);
    let got_a = select::select(0, a.len() as int, in_a).map_values(|i: int| image(a[i]));
    let got_b = select::select(0, b.len() as int, in_b).map_values(|i: int| image(b[i]));
    assert(got_a.to_multiset().add(none) =~= got_a.to_multiset());
    assert(got_b.to_multiset().add(none) =~= got_b.to_multiset());
}

} // verus!
