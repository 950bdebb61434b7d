//! What is kept of a list, and in what order.

use vstd::prelude::*;

verus! {

/// Whether places are those below `n` with a property, in ascending order.
pub open spec fn picks(places: Seq<int>, n: int, keeps: spec_fn(int) -> bool) -> bool {
    &&& forall|i: int, j: int|
        0 <= i < j < places.len() ==> #[trigger] places[i] < #[trigger] places[j]
    &&& forall|k: int| #[trigger] places.contains(k) <==> 0 <= k < n && keeps(k)
}

/// The next place is kept exactly where it has the property.
pub(crate) proof fn lemma_pick(places: Seq<int>, n: int, keeps: spec_fn(int) -> bool)
    requires
        n >= 0,
        picks(places, n, keeps),
    ensures
        keeps(n) ==> picks(places.push(n), n + 1, keeps),
        !keeps(n) ==> picks(places, n + 1, keeps),
{
    let more = places.push(n);
    if keeps(n) {
        assert forall|i: int, j: int| 0 <= i < j < more.len() implies #[trigger] more[i]
            < #[trigger] more[j] by {
            assert(more[i] == places[i]);
            assert(places.contains(places[i]));
            if j < places.len() {
                assert(more[j] == places[j]);
            }
        }
        assert forall|k: int| #[trigger] more.contains(k) <==> 0 <= k < n + 1 && keeps(k) by {
            if more.contains(k) {
                let i = choose|i: int| 0 <= i < more.len() && more[i] == k;
                if i < places.len() {
                    assert(places[i] == k);
                    assert(places.contains(k));
                }
            }
            if 0 <= k < n && keeps(k) {
                assert(places.contains(k));
                let i = choose|i: int| 0 <= i < places.len() && places[i] == k;
                assert(more[i] == k);
            }
            if k == n {
                assert(more[places.len() as int] == n);
            }
        }
    } else {
        assert forall|k: int| #[trigger] places.contains(k) <==> 0 <= k < n + 1 && keeps(k) by {}
    }
}

/// No place is kept below zero.
pub(crate) proof fn lemma_pick_none(keeps: spec_fn(int) -> bool)
    ensures
        picks(Seq::<int>::empty(), 0, keeps),
{
    assert forall|k: int| #[trigger] Seq::<int>::empty().contains(k) <==> 0 <= k < 0 && keeps(
        k,
    ) by {}
}

} // verus!
