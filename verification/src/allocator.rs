//! The allocator itself: the bookkeeping state behind the monitor, the three
//! operations `allocate_resource`, `release_resource` and
//! `terminate_process`, and the safety checker `is_safe`.

use vstd::pervasive::VecAdditionalExecFns;
use vstd::prelude::*;

use crate::model::add_col;
use crate::model::commit_state;
use crate::model::feasible;
use crate::model::grid_nats;
use crate::model::grid_write;
use crate::model::lemma_commit_preserves_wf;
use crate::model::lemma_release_preserves_wf;
use crate::model::lemma_row_sum_bound;
use crate::model::lemma_terminate_preserves_wf;
use crate::model::init_state;
use crate::model::is_safe_state;
use crate::model::lemma_num_pending_nonzero;
use crate::model::lemma_num_pending_update;
use crate::model::lemma_num_pending_zero;
use crate::model::lemma_row_sum_if_le;
use crate::model::lemma_row_sum_if_remove;
use crate::model::lemma_row_sum_zero;
use crate::model::nats;
use crate::model::need_met;
use crate::model::num_pending;
use crate::model::pending_set;
use crate::model::release_state;
use crate::model::row_sum;
use crate::model::row_sum_if;
use crate::model::running_set;
use crate::model::terminate_state;
use crate::model::wf_state;
use crate::model::AllocState;
use crate::safety::lemma_feasible_empty;
use crate::safety::lemma_greedy_step;
use crate::safety::lemma_stuck;

verus! {

/// What a single allocation attempt decided.
///
/// `Unavailable` and `NotSafe` are not terminal failures: the caller is meant
/// to wait until units of the resource are returned and then try again.
#[derive(Clone, Copy, Debug, PartialEq, Eq, Structural)]
pub enum AllocationOutcome {
    /// The request was granted and the state now reflects it.
    Granted,
    /// The process or resource index is out of range.
    InvalidParameters,
    /// The request would push the process past its declared claim.
    ClaimViolation,
    /// Fewer units are available right now than the request asks for.
    Unavailable,
    /// Granting the request would leave the system in an unsafe state.
    NotSafe,
}

/// The resource-accounting state of the Banker's algorithm.  Matrices are
/// indexed `[resource][process]`.
pub struct BankerAlgorithm {
    resources: Vec<usize>,
    claim: Vec<Vec<usize>>,
    available: Vec<usize>,
    allocation: Vec<Vec<usize>>,
    running: Vec<bool>,
}

impl View for BankerAlgorithm {
    type V = AllocState;

    closed spec fn view(&self) -> AllocState {
        AllocState {
            resources: nats(self.resources@),
            claim: grid_nats(self.claim@),
            available: nats(self.available@),
            allocation: grid_nats(self.allocation@),
            running: self.running@,
        }
    }
}

/// The outcome that an allocation request receives in a given state.
pub open spec fn allocate_outcome(
    s: AllocState,
    process: int,
    resource: int,
    amount: nat,
) -> AllocationOutcome {
    if !(0 <= resource < s.num_resources() && 0 <= process < s.num_processes()) {
        AllocationOutcome::InvalidParameters
    } else if s.allocation[resource][process] + amount > s.claim[resource][process] {
        AllocationOutcome::ClaimViolation
    } else if amount > s.available[resource] {
        AllocationOutcome::Unavailable
    } else if !is_safe_state(commit_state(s, process, resource, amount)) {
        AllocationOutcome::NotSafe
    } else {
        AllocationOutcome::Granted
    }
}

/// Writes `v` into entry `[r][p]` of a matrix held as a vector of rows.
fn set_entry(g: &mut Vec<Vec<usize>>, r: usize, p: usize, v: usize)
    requires
        r < old(g)@.len(),
        p < old(g)@[r as int]@.len(),
    ensures
        final(g)@.len() == old(g)@.len(),
        forall|i: int| 0 <= i < old(g)@.len() && i != r ==> final(g)@[i] == old(g)@[i],
        final(g)@[r as int]@ == old(g)@[r as int]@.update(p as int, v),
        grid_nats(final(g)@) == grid_write(grid_nats(old(g)@), r as int, p as int, v as nat),
{
    let row = &mut g[r];
    row.set(p, v);
    proof {
        assert(grid_nats(g@) =~~= grid_write(grid_nats(old(g)@), r as int, p as int, v as nat));
    }
}

impl BankerAlgorithm {
    /// The state invariant: consistent dimensions, no process over its claim,
    /// and conservation of every resource.
    pub open spec fn wf(&self) -> bool {
        wf_state(self@)
    }

    /// Builds an allocator from the capacity vector and the claim matrix.
    /// Returns `None` exactly when the dimensions are inconsistent: `claim`
    /// must have one row per resource, and all rows must have equal length
    /// (one column per process).
    pub fn new(resources: Vec<usize>, claim: Vec<Vec<usize>>) -> (result: Option<BankerAlgorithm>)
        ensures
            result is Some <==> (claim@.len() == resources@.len() && (forall|r: int|
                0 <= r < claim@.len() ==> (#[trigger] claim@[r])@.len() == claim@[0]@.len())),
            result matches Some(a) ==> a.wf() && a@ == init_state(
                nats(resources@),
                grid_nats(claim@),
                if resources@.len() == 0 {
                    0nat
                } else {
                    claim@[0]@.len()
                },
            ),
    {
        let rn = resources.len();
        if claim.len() != rn {
            return None;
        }
        let pn: usize = if rn == 0 {
            0
        } else {
            claim[0].len()
        };
        let mut i: usize = 0;
        while i < rn
            invariant
                rn == resources@.len(),
                rn == claim@.len(),
                i <= rn,
                rn > 0 ==> pn == claim@[0]@.len(),
                rn == 0 ==> pn == 0,
                forall|r: int| 0 <= r < i ==> (#[trigger] claim@[r])@.len() == pn,
            decreases rn - i,
        {
            if claim[i].len() != pn {
                return None;
            }
            i += 1;
        }

        let mut available: Vec<usize> = Vec::new();
        let mut r: usize = 0;
        while r < rn
            invariant
                rn == resources@.len(),
                r <= rn,
                available@.len() == r,
                forall|j: int| 0 <= j < r ==> available@[j] == resources@[j],
            decreases rn - r,
        {
            available.push(resources[r]);
            r += 1;
        }

        let mut allocation: Vec<Vec<usize>> = Vec::new();
        let mut r2: usize = 0;
        while r2 < rn
            invariant
                r2 <= rn,
                allocation@.len() == r2,
                forall|j: int|
                    0 <= j < r2 ==> (#[trigger] allocation@[j])@.len() == pn && (forall|p: int|
                        0 <= p < pn ==> allocation@[j]@[p] == 0),
            decreases rn - r2,
        {
            let mut row: Vec<usize> = Vec::new();
            let mut p: usize = 0;
            while p < pn
                invariant
                    p <= pn,
                    row@.len() == p,
                    forall|k: int| 0 <= k < p ==> row@[k] == 0,
                decreases pn - p,
            {
                row.push(0);
                p += 1;
            }
            allocation.push(row);
            r2 += 1;
        }

        let mut running: Vec<bool> = Vec::new();
        let mut p2: usize = 0;
        while p2 < pn
            invariant
                p2 <= pn,
                running@.len() == p2,
                forall|k: int| 0 <= k < p2 ==> running@[k] == true,
            decreases pn - p2,
        {
            running.push(true);
            p2 += 1;
        }

        let result = BankerAlgorithm { resources, claim, available, allocation, running };
        proof {
            let s = result@;
            let target = init_state(
                nats(result.resources@),
                grid_nats(result.claim@),
                pn as nat,
            );
            assert(s.available =~= target.available);
            assert(s.allocation =~~= target.allocation);
            assert(s.running =~= target.running);
            assert(s =~~= target);
            assert forall|ri: int| 0 <= ri < s.num_resources() implies s.available[ri] + row_sum(
                #[trigger] s.allocation[ri],
                s.num_processes() as int,
            ) == s.resources[ri] by {
                lemma_row_sum_zero(s.allocation[ri], s.num_processes() as int);
            }
            assert(result.wf());
        }
        Some(result)
    }

    /// One allocation attempt.  Precondition failures (`InvalidParameters`,
    /// `ClaimViolation`) are terminal and mutate nothing.  Otherwise the
    /// request is provisionally committed and the safety checker decides: if
    /// the resulting state is safe the commit stands and the request is
    /// granted; if not, the commit is rolled back and the state is exactly as
    /// before.  `Unavailable` and `NotSafe` tell the caller to wait until
    /// units of `resource` are returned and then retry.
    ///
    /// A request is granted only when the committed state passes the safety
    /// check at the moment of return.
    pub fn allocate_resource(&mut self, process: usize, resource: usize, amount: usize) -> (outcome:
        AllocationOutcome)
        requires
            old(self).wf(),
        ensures
            final(self).wf(),
            outcome == allocate_outcome(
                old(self)@,
                process as int,
                resource as int,
                amount as nat,
            ),
            outcome == AllocationOutcome::Granted ==> final(self)@ == commit_state(
                old(self)@,
                process as int,
                resource as int,
                amount as nat,
            ) && is_safe_state(final(self)@),
            outcome != AllocationOutcome::Granted ==> final(self)@ == old(self)@,
    {
        if resource >= self.resources.len() || process >= self.running.len() {
            return AllocationOutcome::InvalidParameters;
        }
        proof {
            assert(self@.claim[resource as int] == nats(self.claim@[resource as int]@));
            assert(self@.allocation[resource as int] == nats(self.allocation@[resource as int]@));
            assert(self@.allocation[resource as int][process as int] <= self@.claim[resource
                as int][process as int]);
        }
        let held = self.allocation[resource][process];
        let cl = self.claim[resource][process];
        if amount > cl - held {
            return AllocationOutcome::ClaimViolation;
        }
        let av = self.available[resource];
        if amount > av {
            return AllocationOutcome::Unavailable;
        }
        let ghost s0 = self@;

        // Provisional commit, invisible to other callers: the monitor holds
        // exclusive access for the whole call.
        set_entry(&mut self.allocation, resource, process, held + amount);
        self.available.set(resource, av - amount);
        proof {
            assert(self@.available =~= commit_state(
                s0,
                process as int,
                resource as int,
                amount as nat,
            ).available);
            assert(self@ =~~= commit_state(s0, process as int, resource as int, amount as nat));
            lemma_commit_preserves_wf(s0, process as int, resource as int, amount as nat);
        }

        if self.is_safe() {
            AllocationOutcome::Granted
        } else {
            // Roll back the provisional commit.
            proof {
                assert(self@.allocation[resource as int] == nats(self.allocation@[resource
                    as int]@));
            }
            let held2 = self.allocation[resource][process];
            let av2 = self.available[resource];
            set_entry(&mut self.allocation, resource, process, held2 - amount);
            self.available.set(resource, av2 + amount);
            proof {
                assert(self@.allocation =~~= s0.allocation);
                assert(self@.available =~= s0.available);
                assert(self@ =~~= s0);
            }
            AllocationOutcome::NotSafe
        }
    }

    /// Returns `amount` units of `resource` held by `process` to the pool.
    /// Fails, mutating nothing, when an index is out of range or the process
    /// does not hold that many units.  Never blocks.
    pub fn release_resource(&mut self, process: usize, resource: usize, amount: usize) -> (result:
        bool)
        requires
            old(self).wf(),
        ensures
            final(self).wf(),
            result == (resource < old(self)@.num_resources() && process < old(
                self,
            )@.num_processes() && amount <= old(self)@.allocation[resource as int][process as int]),
            result ==> final(self)@ == release_state(
                old(self)@,
                process as int,
                resource as int,
                amount as nat,
            ),
            !result ==> final(self)@ == old(self)@,
    {
        if resource >= self.resources.len() || process >= self.running.len() {
            return false;
        }
        proof {
            assert(self@.allocation[resource as int] == nats(self.allocation@[resource as int]@));
        }
        let held = self.allocation[resource][process];
        if held < amount {
            return false;
        }
        let ghost s0 = self@;
        proof {
            lemma_row_sum_bound(
                s0.allocation[resource as int],
                s0.num_processes() as int,
                process as int,
            );
            assert(s0.resources[resource as int] == self.resources@[resource as int] as nat);
        }
        set_entry(&mut self.allocation, resource, process, held - amount);
        let av = self.available[resource];
        self.available.set(resource, av + amount);
        proof {
            assert(self@.available =~= release_state(
                s0,
                process as int,
                resource as int,
                amount as nat,
            ).available);
            assert(self@ =~~= release_state(s0, process as int, resource as int, amount as nat));
            lemma_release_preserves_wf(s0, process as int, resource as int, amount as nat);
        }
        true
    }

    /// Terminates `process`: every unit it holds rejoins the pool, its
    /// allocations are zeroed, and it is marked inactive, excluding it from
    /// all future safety evaluations.  Fails, mutating nothing, when the
    /// index is out of range or the process already terminated; a second
    /// terminate of the same process therefore fails and changes no state.
    /// Never blocks.
    pub fn terminate_process(&mut self, process: usize) -> (result: bool)
        requires
            old(self).wf(),
        ensures
            final(self).wf(),
            result == (process < old(self)@.num_processes() && old(self)@.running[process as int]),
            result ==> final(self)@ == terminate_state(old(self)@, process as int),
            !result ==> final(self)@ == old(self)@,
    {
        if process >= self.running.len() {
            return false;
        }
        if !self.running[process] {
            return false;
        }
        let ghost s0 = self@;
        let rn = self.resources.len();
        let mut r: usize = 0;
        while r < rn
            invariant
                wf_state(s0),
                rn == s0.num_resources(),
                process < s0.num_processes(),
                r <= rn,
                self@.resources == s0.resources,
                self@.claim == s0.claim,
                self@.running == s0.running,
                self@.available.len() == rn,
                self@.allocation.len() == rn,
                s0.resources == nats(self.resources@),
                forall|i: int| r <= i < rn ==> #[trigger] self@.allocation[i] == s0.allocation[i],
                forall|i: int| r <= i < rn ==> #[trigger] self@.available[i] == s0.available[i],
                forall|i: int|
                    0 <= i < r ==> #[trigger] self@.allocation[i] == s0.allocation[i].update(
                        process as int,
                        0nat,
                    ),
                forall|i: int|
                    0 <= i < r ==> #[trigger] self@.available[i] == s0.available[i]
                        + s0.allocation[i][process as int],
            decreases rn - r,
        {
            let ghost s_prev = self@;
            proof {
                assert(self@.allocation[r as int] == nats(self.allocation@[r as int]@));
                assert(s0.allocation[r as int].len() == s0.num_processes());
                lemma_row_sum_bound(
                    s0.allocation[r as int],
                    s0.num_processes() as int,
                    process as int,
                );
                assert(s0.available[r as int] + row_sum(
                    s0.allocation[r as int],
                    s0.num_processes() as int,
                ) == s0.resources[r as int]);
                assert(s0.resources[r as int] == self.resources@[r as int] as nat);
                assert(s_prev.allocation[r as int][process as int] == self.allocation@[r
                    as int]@[process as int] as nat);
                assert(s_prev.available[r as int] == self.available@[r as int] as nat);
            }
            let a = self.allocation[r][process];
            let av = self.available[r];
            if a > 0 {
                self.available.set(r, av + a);
                set_entry(&mut self.allocation, r, process, 0);
                proof {
                    assert(self@.available =~= s_prev.available.update(
                        r as int,
                        (s_prev.available[r as int] + a as nat) as nat,
                    ));
                    assert(self@.allocation == grid_write(
                        s_prev.allocation,
                        r as int,
                        process as int,
                        0nat,
                    ));
                }
            } else {
                proof {
                    assert(s0.allocation[r as int][process as int] == 0);
                    assert(s0.allocation[r as int].update(process as int, 0nat)
                        =~= s0.allocation[r as int]);
                }
            }
            proof {
                assert forall|i: int| 0 <= i < r + 1 implies #[trigger] self@.allocation[i]
                    == s0.allocation[i].update(process as int, 0nat) by {
                    if i < r {
                        assert(self@.allocation[i] == s_prev.allocation[i]);
                    }
                }
                assert forall|i: int| 0 <= i < r + 1 implies #[trigger] self@.available[i]
                    == s0.available[i] + s0.allocation[i][process as int] by {
                    if i < r {
                        assert(self@.available[i] == s_prev.available[i]);
                    }
                }
                assert forall|i: int| r + 1 <= i < rn implies #[trigger] self@.allocation[i]
                    == s0.allocation[i] by {
                    assert(self@.allocation[i] == s_prev.allocation[i]);
                }
                assert forall|i: int| r + 1 <= i < rn implies #[trigger] self@.available[i]
                    == s0.available[i] by {
                    assert(self@.available[i] == s_prev.available[i]);
                }
            }
            r += 1;
        }
        self.running.set(process, false);
        proof {
            assert(self@.available =~= terminate_state(s0, process as int).available);
            assert(self@.allocation =~~= terminate_state(s0, process as int).allocation);
            assert(self@ =~~= terminate_state(s0, process as int));
            lemma_terminate_preserves_wf(s0, process as int);
        }
        true
    }

    /// Whether `process`'s remaining need fits within `work`, elementwise.
    fn fits(&self, work: &Vec<usize>, process: usize) -> (b: bool)
        requires
            self.wf(),
            work@.len() == self@.num_resources(),
            process < self@.num_processes(),
        ensures
            b == need_met(self@.claim, self@.allocation, nats(work@), process as int),
    {
        let rn = self.resources.len();
        let mut r: usize = 0;
        while r < rn
            invariant
                self.wf(),
                rn == self@.num_resources(),
                work@.len() == rn,
                process < self@.num_processes(),
                r <= rn,
                forall|i: int|
                    0 <= i < r ==> self@.claim[i][process as int] - self@.allocation[i][process
                        as int] <= nats(work@)[i],
            decreases rn - r,
        {
            proof {
                assert(self@.claim[r as int] == nats(self.claim@[r as int]@));
                assert(self@.allocation[r as int] == nats(self.allocation@[r as int]@));
                assert(nats(work@)[r as int] == work@[r as int] as nat);
                assert(self@.claim[r as int][process as int] == self.claim@[r as int]@[process
                    as int] as nat);
                assert(self@.allocation[r as int][process as int] == self.allocation@[r
                    as int]@[process as int] as nat);
                assert(self@.allocation[r as int][process as int] <= self@.claim[r as int][process
                    as int]);
            }
            let c = self.claim[r][process];
            let a = self.allocation[r][process];
            if c - a > work[r] {
                return false;
            }
            r += 1;
        }
        true
    }

    /// The classical Banker's safety check: scans the running processes in
    /// index order for one whose remaining need fits in the units accumulated
    /// so far, simulates its completion, and repeats; the state is safe
    /// exactly when every running process can be finished this way.
    ///
    /// The scan never mutates the real state.
    pub fn is_safe(&self) -> (result: bool)
        requires
            self.wf(),
        ensures
            result == is_safe_state(self@),
    {
        let ghost s = self@;
        let rn = self.resources.len();
        let pn = self.running.len();

        let mut work: Vec<usize> = Vec::new();
        let mut r0: usize = 0;
        while r0 < rn
            invariant
                self.wf(),
                rn == self@.num_resources(),
                r0 <= rn,
                work@.len() == r0,
                forall|i: int| 0 <= i < r0 ==> work@[i] == self@.available[i],
            decreases rn - r0,
        {
            proof {
                assert(self@.available[r0 as int] == self.available@[r0 as int] as nat);
            }
            work.push(self.available[r0]);
            r0 += 1;
        }

        let mut done: Vec<bool> = Vec::new();
        let mut p0: usize = 0;
        while p0 < pn
            invariant
                p0 <= pn,
                done@.len() == p0,
                forall|k: int| 0 <= k < p0 ==> done@[k] == false,
            decreases pn - p0,
        {
            done.push(false);
            p0 += 1;
        }

        let mut remaining: usize = 0;
        let mut p1: usize = 0;
        while p1 < pn
            invariant
                pn == self@.num_processes(),
                p1 <= pn,
                done@.len() == pn,
                forall|k: int| 0 <= k < pn ==> done@[k] == false,
                remaining <= p1,
                remaining == num_pending(self@.running, done@, p1 as int),
            decreases pn - p1,
        {
            if self.running[p1] {
                remaining += 1;
            }
            p1 += 1;
        }

        proof {
            assert(pending_set(s.running, done@) =~= running_set(s.running));
            assert(nats(work@) =~= s.available);
        }

        while remaining > 0
            invariant
                s == self@,
                self.wf(),
                rn == s.num_resources(),
                pn == s.num_processes(),
                work@.len() == rn,
                done@.len() == pn,
                remaining == num_pending(s.running, done@, pn as int),
                forall|i: int|
                    0 <= i < rn ==> work@[i] + row_sum_if(
                        #[trigger] s.allocation[i],
                        pn as int,
                        pending_set(s.running, done@),
                    ) == s.available[i] + row_sum_if(s.allocation[i], pn as int, running_set(s.running)),
                feasible(s.claim, s.allocation, pending_set(s.running, done@), nats(work@))
                    <==> is_safe_state(s),
            decreases remaining,
        {
            let ghost pend0 = pending_set(s.running, done@);
            let ghost work0 = nats(work@);

            let mut chosen: usize = 0;
            let mut found: bool = false;
            let mut p: usize = 0;
            while p < pn
                invariant_except_break
                    !found,
                    forall|q: int|
                        0 <= q < p && s.running[q] && !done@[q] ==> !need_met(
                            s.claim,
                            s.allocation,
                            nats(work@),
                            q,
                        ),
                invariant
                    s == self@,
                    self.wf(),
                    rn == s.num_resources(),
                    pn == s.num_processes(),
                    work@.len() == rn,
                    done@.len() == pn,
                    p <= pn,
                    found ==> chosen < pn && s.running[chosen as int] && !done@[chosen as int]
                        && need_met(s.claim, s.allocation, nats(work@), chosen as int),
                ensures
                    found ==> chosen < pn && s.running[chosen as int] && !done@[chosen as int]
                        && need_met(s.claim, s.allocation, nats(work@), chosen as int),
                    !found ==> forall|q: int|
                        0 <= q < pn && s.running[q] && !done@[q] ==> !need_met(
                            s.claim,
                            s.allocation,
                            nats(work@),
                            q,
                        ),
                decreases pn - p,
            {
                if self.running[p] && !done[p] && self.fits(&work, p) {
                    chosen = p;
                    found = true;
                    break ;
                }
                p += 1;
            }

            if !found {
                proof {
                    lemma_num_pending_nonzero(s.running, done@, pn as int);
                    let w = choose|q: int| 0 <= q < pn && s.running[q] && !done@[q];
                    assert(pend0.contains(w));
                    assert forall|q: int| pend0.contains(q) implies !need_met(
                        s.claim,
                        s.allocation,
                        nats(work@),
                        q,
                    ) by {}
                    lemma_stuck(s.claim, s.allocation, pend0, nats(work@), w);
                }
                return false;
            }

            // Simulate completion of `chosen`: its held units rejoin `work`.
            let mut r2: usize = 0;
            while r2 < rn
                invariant
                    s == self@,
                    self.wf(),
                    rn == s.num_resources(),
                    pn == s.num_processes(),
                    work@.len() == rn,
                    done@.len() == pn,
                    r2 <= rn,
                    chosen < pn,
                    pend0 == pending_set(s.running, done@),
                    pend0.contains(chosen as int),
                    forall|i: int| 0 <= i < r2 ==> work@[i] == work0[i] + s.allocation[i][chosen as int],
                    forall|i: int| r2 <= i < rn ==> work@[i] == work0[i],
                    forall|i: int|
                        0 <= i < rn ==> work0[i] + row_sum_if(
                            #[trigger] s.allocation[i],
                            pn as int,
                            pend0,
                        ) == s.available[i] + row_sum_if(s.allocation[i], pn as int, running_set(s.running)),
                decreases rn - r2,
            {
                proof {
                    assert(s.allocation[r2 as int] == nats(self.allocation@[r2 as int]@));
                    let row = s.allocation[r2 as int];
                    assert(row[chosen as int] == self.allocation@[r2 as int]@[chosen as int] as nat);
                    lemma_row_sum_if_remove(row, pn as int, pend0, chosen as int);
                    lemma_row_sum_if_le(row, pn as int, running_set(s.running));
                    assert(s.available[r2 as int] + row_sum(row, pn as int) == s.resources[r2 as int]);
                    assert(s.resources[r2 as int] == self.resources@[r2 as int] as nat);
                }
                let a = self.allocation[r2][chosen];
                let w = work[r2];
                work.set(r2, w + a);
                r2 += 1;
            }

            let ghost done0 = done@;
            done.set(chosen, true);
            remaining = remaining - 1;

            proof {
                lemma_num_pending_update(s.running, done0, pn as int, chosen as int);
                assert(pending_set(s.running, done@) =~= pend0.remove(chosen as int));
                assert(nats(work@) =~= add_col(work0, s.allocation, chosen as int));
                lemma_greedy_step(s.claim, s.allocation, pend0, work0, chosen as int);
                assert forall|i: int| 0 <= i < rn implies work@[i] + row_sum_if(
                    #[trigger] s.allocation[i],
                    pn as int,
                    pending_set(s.running, done@),
                ) == s.available[i] + row_sum_if(s.allocation[i], pn as int, running_set(s.running)) by {
                    lemma_row_sum_if_remove(s.allocation[i], pn as int, pend0, chosen as int);
                }
            }
        }

        proof {
            lemma_num_pending_zero(s.running, done@, pn as int);
            assert forall|q: int| !pending_set(s.running, done@).contains(q) by {}
            lemma_feasible_empty(s.claim, s.allocation, pending_set(s.running, done@), nats(work@));
        }
        true
    }

    /// Number of resource types.
    pub fn num_resources(&self) -> (n: usize)
        ensures
            n == self@.num_resources(),
    {
        self.resources.len()
    }

    /// Number of processes.
    pub fn num_processes(&self) -> (n: usize)
        ensures
            n == self@.num_processes(),
    {
        self.running.len()
    }

    /// Total capacity of resource `resource`.
    pub fn capacity_of(&self, resource: usize) -> (n: usize)
        requires
            resource < self@.num_resources(),
        ensures
            n == self@.resources[resource as int],
    {
        self.resources[resource]
    }

    /// Units of `resource` currently available.
    pub fn available_of(&self, resource: usize) -> (n: usize)
        requires
            self.wf(),
            resource < self@.num_resources(),
        ensures
            n == self@.available[resource as int],
    {
        self.available[resource]
    }

    /// Units of `resource` currently held by `process`.
    pub fn alloc_of(&self, resource: usize, process: usize) -> (n: usize)
        requires
            self.wf(),
            resource < self@.num_resources(),
            process < self@.num_processes(),
        ensures
            n == self@.allocation[resource as int][process as int],
    {
        proof {
            assert(self@.allocation[resource as int] == nats(self.allocation@[resource as int]@));
        }
        self.allocation[resource][process]
    }

    /// Declared maximum claim of `process` on `resource`.
    pub fn claim_of(&self, resource: usize, process: usize) -> (n: usize)
        requires
            self.wf(),
            resource < self@.num_resources(),
            process < self@.num_processes(),
        ensures
            n == self@.claim[resource as int][process as int],
    {
        proof {
            assert(self@.claim[resource as int] == nats(self.claim@[resource as int]@));
        }
        self.claim[resource][process]
    }

    /// Whether `process` is still active.
    pub fn is_running(&self, process: usize) -> (b: bool)
        requires
            process < self@.num_processes(),
        ensures
            b == self@.running[process as int],
    {
        self.running[process]
    }
}

} // verus!
