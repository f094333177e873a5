//! Proofs about safe orders: that the greedy scan of the safety checker is
//! both sound and complete, and that terminating a process can never make a
//! safe state unsafe.

use vstd::prelude::*;

use crate::model::add_col;
use crate::model::dims_ok;
use crate::model::feasible;
use crate::model::is_safe_state;
use crate::model::need_met;
use crate::model::running_set;
use crate::model::safe_order;
use crate::model::terminate_state;
use crate::model::wf_state;
use crate::model::zero_col;
use crate::model::AllocState;

verus! {

/// A need that fits within `w1` also fits within any pointwise larger `w2`.
proof fn lemma_need_met_monotone(
    claim: Seq<Seq<nat>>,
    allocation: Seq<Seq<nat>>,
    w1: Seq<nat>,
    w2: Seq<nat>,
    p: int,
)
    requires
        w1.len() == w2.len(),
        forall|r: int| 0 <= r < w1.len() ==> w1[r] <= #[trigger] w2[r],
        need_met(claim, allocation, w1, p),
    ensures
        need_met(claim, allocation, w2, p),
{
    assert forall|r: int| 0 <= r < w2.len() implies claim[r][p] - allocation[r][p]
        <= #[trigger] w2[r] by {
        assert(claim[r][p] - allocation[r][p] <= w1[r]);
    }
}

/// Exchange argument: if some order finishes everything in `rest`, and `p` in
/// `rest` could be run right now, then running `p` first still lets the rest
/// finish.
proof fn lemma_safe_order_insert(
    claim: Seq<Seq<nat>>,
    allocation: Seq<Seq<nat>>,
    rest: Set<int>,
    work: Seq<nat>,
    order: Seq<int>,
    p: int,
)
    requires
        safe_order(claim, allocation, rest, work, order),
        rest.contains(p),
        need_met(claim, allocation, work, p),
    ensures
        feasible(claim, allocation, rest.remove(p), add_col(work, allocation, p)),
    decreases order.len(),
{
    if order.len() == 0 {
        assert(false);
    } else {
        let q = order[0];
        if q == p {
            assert(safe_order(
                claim,
                allocation,
                rest.remove(p),
                add_col(work, allocation, p),
                order.drop_first(),
            ));
        } else {
            let rest1 = rest.remove(q);
            let work1 = add_col(work, allocation, q);
            lemma_need_met_monotone(claim, allocation, work, work1, p);
            lemma_safe_order_insert(claim, allocation, rest1, work1, order.drop_first(), p);
            let tail = choose|o: Seq<int>|
                safe_order(claim, allocation, rest1.remove(p), add_col(work1, allocation, p), o);
            let o2 = seq![q] + tail;
            assert(o2[0] == q);
            assert(o2.drop_first() =~= tail);
            assert(rest1.remove(p) =~= rest.remove(p).remove(q));
            assert(add_col(work1, allocation, p) =~= add_col(
                add_col(work, allocation, p),
                allocation,
                q,
            ));
            lemma_need_met_monotone(
                claim,
                allocation,
                work,
                add_col(work, allocation, p),
                q,
            );
            assert(safe_order(claim, allocation, rest.remove(p), add_col(work, allocation, p), o2));
            assert(feasible(claim, allocation, rest.remove(p), add_col(work, allocation, p)));
        }
    }
}

/// One greedy step neither gains nor loses feasibility: running an eligible
/// process `p` now is harmless and sufficient.
pub(crate) proof fn lemma_greedy_step(
    claim: Seq<Seq<nat>>,
    allocation: Seq<Seq<nat>>,
    rest: Set<int>,
    work: Seq<nat>,
    p: int,
)
    requires
        rest.contains(p),
        need_met(claim, allocation, work, p),
    ensures
        feasible(claim, allocation, rest, work) <==> feasible(
            claim,
            allocation,
            rest.remove(p),
            add_col(work, allocation, p),
        ),
{
    if feasible(claim, allocation, rest, work) {
        let o = choose|o: Seq<int>| safe_order(claim, allocation, rest, work, o);
        lemma_safe_order_insert(claim, allocation, rest, work, o, p);
    }
    if feasible(claim, allocation, rest.remove(p), add_col(work, allocation, p)) {
        let o = choose|o: Seq<int>|
            safe_order(claim, allocation, rest.remove(p), add_col(work, allocation, p), o);
        let o2 = seq![p] + o;
        assert(o2[0] == p);
        assert(o2.drop_first() =~= o);
        assert(safe_order(claim, allocation, rest, work, o2));
        assert(feasible(claim, allocation, rest, work));
    }
}

/// If some process remains but none of them could be run, no order can finish
/// them all.
pub(crate) proof fn lemma_stuck(
    claim: Seq<Seq<nat>>,
    allocation: Seq<Seq<nat>>,
    rest: Set<int>,
    work: Seq<nat>,
    w: int,
)
    requires
        rest.contains(w),
        forall|p: int| rest.contains(p) ==> !need_met(claim, allocation, work, p),
    ensures
        !feasible(claim, allocation, rest, work),
{
    if feasible(claim, allocation, rest, work) {
        let o = choose|o: Seq<int>| safe_order(claim, allocation, rest, work, o);
        if o.len() == 0 {
            assert(!rest.contains(w));
        } else {
            assert(rest.contains(o[0]) && need_met(claim, allocation, work, o[0]));
        }
        assert(false);
    }
}

/// A safe order that never consults column `p` of the allocation matrix is
/// preserved when that matrix is exchanged for one agreeing on all the
/// columns it does consult.
proof fn lemma_safe_order_agree(
    claim: Seq<Seq<nat>>,
    a1: Seq<Seq<nat>>,
    a2: Seq<Seq<nat>>,
    rest: Set<int>,
    work: Seq<nat>,
    order: Seq<int>,
)
    requires
        safe_order(claim, a1, rest, work, order),
        forall|r: int, q: int|
            0 <= r < work.len() && rest.contains(q) ==> a1[r][q] == #[trigger] a2[r][q],
    ensures
        safe_order(claim, a2, rest, work, order),
    decreases order.len(),
{
    if order.len() > 0 {
        let q = order[0];
        lemma_safe_order_agree(
            claim,
            a1,
            a2,
            rest.remove(q),
            add_col(work, a1, q),
            order.drop_first(),
        );
        assert(add_col(work, a1, q) =~= add_col(work, a2, q));
        assert forall|r: int| 0 <= r < work.len() implies claim[r][q] - a2[r][q]
            <= #[trigger] work[r] by {
            assert(claim[r][q] - a1[r][q] <= work[r]);
        }
    }
}

/// Removing a process from a finishable set keeps the rest finishable, even
/// after its allocations are zeroed and returned to the pool.
proof fn lemma_drop_column(
    claim: Seq<Seq<nat>>,
    allocation: Seq<Seq<nat>>,
    rest: Set<int>,
    work: Seq<nat>,
    order: Seq<int>,
    p: int,
    pn: int,
)
    requires
        safe_order(claim, allocation, rest, work, order),
        rest.contains(p),
        allocation.len() == work.len(),
        forall|r: int| 0 <= r < allocation.len() ==> (#[trigger] allocation[r]).len() == pn,
        0 <= p < pn,
        forall|q: int| rest.contains(q) ==> 0 <= q < pn,
    ensures
        feasible(claim, zero_col(allocation, p), rest.remove(p), add_col(work, allocation, p)),
    decreases order.len(),
{
    let zc = zero_col(allocation, p);
    if order.len() == 0 {
        assert(false);
    } else {
        let q = order[0];
        if q == p {
            assert forall|r: int, q2: int|
                0 <= r < work.len() && rest.remove(p).contains(q2) implies allocation[r][q2]
                == #[trigger] zc[r][q2] by {
                assert(zc[r] == allocation[r].update(p, 0nat));
            }
            lemma_safe_order_agree(
                claim,
                allocation,
                zc,
                rest.remove(p),
                add_col(work, allocation, p),
                order.drop_first(),
            );
        } else {
            let rest1 = rest.remove(q);
            let work1 = add_col(work, allocation, q);
            lemma_drop_column(claim, allocation, rest1, work1, order.drop_first(), p, pn);
            let tail = choose|o: Seq<int>|
                safe_order(claim, zc, rest1.remove(p), add_col(work1, allocation, p), o);
            let o2 = seq![q] + tail;
            assert(o2[0] == q);
            assert(o2.drop_first() =~= tail);
            assert(rest1.remove(p) =~= rest.remove(p).remove(q));
            assert forall|r: int| 0 <= r < work.len() implies #[trigger] zc[r][q]
                == allocation[r][q] by {
                assert(zc[r] == allocation[r].update(p, 0nat));
            }
            assert(add_col(add_col(work, allocation, p), zc, q) =~= add_col(
                work1,
                allocation,
                p,
            ));
            assert forall|r: int| 0 <= r < work.len() implies claim[r][q] - zc[r][q] <= add_col(
                work,
                allocation,
                p,
            )[r] by {
                assert(claim[r][q] - allocation[r][q] <= #[trigger] work[r]);
            }
            assert(need_met(claim, zc, add_col(work, allocation, p), q));
            assert(safe_order(claim, zc, rest.remove(p), add_col(work, allocation, p), o2));
            assert(feasible(claim, zc, rest.remove(p), add_col(work, allocation, p)));
        }
    }
}

/// Safety monotonicity: terminating any running process never makes a safe
/// state unsafe.  The remaining processes can finish in the same relative
/// order as before, with at least as many units available at every step.
pub proof fn lemma_terminate_preserves_safety(s: AllocState, p: int)
    requires
        wf_state(s),
        0 <= p < s.num_processes(),
        s.running[p],
        is_safe_state(s),
    ensures
        is_safe_state(terminate_state(s, p)),
{
    let order = choose|o: Seq<int>|
        safe_order(s.claim, s.allocation, running_set(s.running), s.available, o);
    assert(running_set(s.running).contains(p));
    lemma_drop_column(
        s.claim,
        s.allocation,
        running_set(s.running),
        s.available,
        order,
        p,
        s.num_processes() as int,
    );
    assert(running_set(s.running.update(p, false)) =~= running_set(s.running).remove(p));
}

/// Terminate is idempotent in effect: the first call marks the process
/// inactive, returning everything it held to the pool; a second call finds
/// `running` false and so, by the contract of `terminate_process`, reports
/// failure and changes no state.
pub proof fn lemma_terminate_idempotent(s: AllocState, p: int)
    requires
        dims_ok(s),
        0 <= p < s.num_processes(),
    ensures
        !terminate_state(s, p).running[p],
        forall|r: int|
            0 <= r < s.num_resources() ==> #[trigger] terminate_state(s, p).allocation[r][p] == 0,
        forall|r: int|
            0 <= r < s.num_resources() ==> #[trigger] terminate_state(s, p).available[r]
                == s.available[r] + s.allocation[r][p],
{
    let s2 = terminate_state(s, p);
    assert forall|r: int| 0 <= r < s.num_resources() implies #[trigger] s2.allocation[r][p]
        == 0 by {
        assert(s2.allocation[r] == s.allocation[r].update(p, 0nat));
    }
}

/// With no process left, the empty order finishes them all.
pub(crate) proof fn lemma_feasible_empty(
    claim: Seq<Seq<nat>>,
    allocation: Seq<Seq<nat>>,
    rest: Set<int>,
    work: Seq<nat>,
)
    requires
        forall|p: int| !rest.contains(p),
    ensures
        feasible(claim, allocation, rest, work),
{
    let o = Seq::<int>::empty();
    assert(safe_order(claim, allocation, rest, work, o));
}

} // verus!
