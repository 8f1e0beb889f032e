//! Facts about lists.

use vstd::prelude::*;

verus! {

/// A filter keeps what meets it.
pub proof fn lemma_filter_contains<A>(all: Seq<A>, pred: spec_fn(A) -> bool, e: A)
    ensures
        all.filter(pred).contains(e) <==> all.contains(e) && pred(e),
    decreases all.len(),
{
    reveal(Seq::filter);
    if all.len() > 0 {
        let front = all.drop_last();
        lemma_filter_contains(front, pred, e);
        let kept = front.filter(pred);
        let now = all.filter(pred);
        if all.contains(e) {
            let i = choose|i: int| 0 <= i < all.len() && all[i] == e;
            if i < front.len() {
                assert(front[i] == e);
            }
        }
        if front.contains(e) {
            let i = choose|i: int| 0 <= i < front.len() && front[i] == e;
            assert(all[i] == e);
        }
        assert(all[all.len() - 1] == all.last());
        if pred(all.last()) {
            assert(now[now.len() - 1] == all.last());
            if kept.contains(e) {
                let i = choose|i: int| 0 <= i < kept.len() && kept[i] == e;
                assert(now[i] == e);
            }
            if now.contains(e) {
                let i = choose|i: int| 0 <= i < now.len() && now[i] == e;
                if i < kept.len() {
                    assert(kept[i] == e);
                }
            }
        }
    }
}

} // verus!
