//! Which filter predicates the rewrite may move out of a union.
use vstd::prelude::*;

use crate::planner::expr::{PlanV, PredV};
use crate::planner::rewrite::{keep_preds, preds_of, shared_preds};

verus! {

proof fn lemma_keep_preds(a: Seq<PredV>, b: Seq<PredV>, p: PredV)
    ensures
        keep_preds(a, b).contains(p) == (a.contains(p) && b.contains(p)),
    decreases a.len(),
{
    if a.len() > 0 {
        lemma_keep_preds(a.drop_last(), b, p);
        let k = keep_preds(a.drop_last(), b);
        assert(a =~= a.drop_last().push(a.last()));
        if a.contains(p) && a.last() != p {
            let i = choose|i: int| 0 <= i < a.len() && a[i] == p;
            assert(a.drop_last()[i] == p);
        }
        if b.contains(a.last()) {
            assert(keep_preds(a, b) == k.push(a.last()));
            if k.push(a.last()).contains(p) && p != a.last() {
                let i = choose|i: int| 0 <= i < k.len() + 1 && k.push(a.last())[i] == p;
                assert(k[i] == p);
            }
            if k.contains(p) {
                let i = choose|i: int| 0 <= i < k.len() && k[i] == p;
                assert(k.push(a.last())[i] == p);
            }
            if p == a.last() {
                assert(k.push(a.last())[k.len() as int] == p);
            }
        }
        if a.drop_last().contains(p) {
            let i = choose|i: int| 0 <= i < a.drop_last().len() && a.drop_last()[i] == p;
            assert(a[i] == p);
        }
        if p == a.last() {
            assert(a[a.len() - 1] == p);
        }
    }
}

/// The predicates that a union's operands share are exactly those that
/// every operand filters on: a predicate is shared only when each operand
/// is a filter with that predicate (none for no operands).
pub proof fn law_shared_preds(os: Seq<PlanV>, p: PredV)
    ensures
        os.len() == 0 ==> shared_preds(os) is None,
        os.len() > 0 ==> shared_preds(os) is Some,
        os.len() > 0 ==> (shared_preds(os)->0.contains(p)
            <==> forall|i: int| 0 <= i < os.len() ==> (#[trigger] os[i]) is Filter && preds_of(os[i]).contains(p)),
    decreases os.len(),
{
    if os.len() > 0 {
        let d = os.drop_last();
        law_shared_preds(d, p);
        let x = os.last();
        assert(x == os[os.len() - 1]);
        assert forall|i: int| 0 <= i < d.len() implies #[trigger] d[i] == os[i] by {}
        let all = forall|i: int| 0 <= i < os.len() ==> (#[trigger] os[i]) is Filter && preds_of(os[i]).contains(p);
        let all_d = forall|i: int| 0 <= i < d.len() ==> (#[trigger] d[i]) is Filter && preds_of(d[i]).contains(p);
        match x {
            PlanV::Filter { input, preds } => {
                if d.len() == 0 {
                    assert(shared_preds(os) == Some(preds));
                    if preds.contains(p) {
                        assert forall|i: int| 0 <= i < os.len() implies (#[trigger] os[i]) is Filter && preds_of(os[i]).contains(p) by {
                            assert(i == 0);
                        }
                    }
                } else {
                    let a = shared_preds(d)->0;
                    assert(shared_preds(os) == Some(keep_preds(a, preds)));
                    lemma_keep_preds(a, preds, p);
                    if all {
                        assert(all_d);
                        assert(preds_of(os[os.len() - 1]).contains(p));
                    }
                    if a.contains(p) && preds.contains(p) {
                        assert(all_d);
                        assert forall|i: int| 0 <= i < os.len() implies (#[trigger] os[i]) is Filter && preds_of(os[i]).contains(p) by {
                            if i < d.len() {
                                assert(d[i] == os[i]);
                            }
                        }
                    }
                }
            },
            _ => {
                assert(shared_preds(os) == Some(Seq::<PredV>::empty()));
                if all {
                    assert(os[os.len() - 1] is Filter);
                }
            },
        }
    }
}

} // verus!
