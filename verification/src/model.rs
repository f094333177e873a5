//! The mathematical model of the allocator's bookkeeping state, the
//! transitions that the three operations perform on it, and the definition of
//! a *safe* state: one from which every running process can still obtain its
//! full remaining claim and finish, in some order.

use vstd::prelude::*;

verus! {

/// A snapshot of the allocator's bookkeeping.  Matrices are indexed
/// `[resource][process]`.
#[verifier::ext_equal]
pub ghost struct AllocState {
    /// Total units of each resource type; fixed at construction.
    pub resources: Seq<nat>,
    /// Maximum units of each resource that each process may ever hold.
    pub claim: Seq<Seq<nat>>,
    /// Units of each resource not currently held by any process.
    pub available: Seq<nat>,
    /// Units of each resource currently held by each process.
    pub allocation: Seq<Seq<nat>>,
    /// Whether each process is still active.
    pub running: Seq<bool>,
}

impl AllocState {
    pub open spec fn num_resources(self) -> nat {
        self.resources.len()
    }

    pub open spec fn num_processes(self) -> nat {
        self.running.len()
    }
}

/// Sum of the first `n` entries of one matrix row.
pub open spec fn row_sum(row: Seq<nat>, n: int) -> nat
    decreases n,
{
    if n <= 0 {
        0
    } else {
        row_sum(row, n - 1) + row[n - 1]
    }
}

/// Sum of those entries `row[p]` with `p < n` whose index lies in `active`.
pub(crate) open spec fn row_sum_if(row: Seq<nat>, n: int, active: Set<int>) -> nat
    decreases n,
{
    if n <= 0 {
        0
    } else {
        row_sum_if(row, n - 1, active) + (if active.contains(n - 1) {
            row[n - 1]
        } else {
            0nat
        })
    }
}

/// How many indices `p < n` satisfy `running[p] && !done[p]`.
pub(crate) open spec fn num_pending(running: Seq<bool>, done: Seq<bool>, n: int) -> nat
    decreases n,
{
    if n <= 0 {
        0
    } else {
        num_pending(running, done, n - 1) + (if running[n - 1] && !done[n - 1] {
            1nat
        } else {
            0nat
        })
    }
}

/// All five components have consistent dimensions.
pub open spec fn dims_ok(s: AllocState) -> bool {
    &&& s.claim.len() == s.num_resources()
    &&& s.allocation.len() == s.num_resources()
    &&& s.available.len() == s.num_resources()
    &&& forall|r: int|
        0 <= r < s.num_resources() ==> (#[trigger] s.claim[r]).len() == s.num_processes()
    &&& forall|r: int|
        0 <= r < s.num_resources() ==> (#[trigger] s.allocation[r]).len() == s.num_processes()
}

/// No process holds more of a resource than its declared claim.
pub open spec fn claim_bound_ok(s: AllocState) -> bool {
    forall|r: int, p: int|
        0 <= r < s.num_resources() && 0 <= p < s.num_processes() ==> #[trigger] s.allocation[r][p]
            <= s.claim[r][p]
}

/// For every resource, the available units plus all held units equal the
/// total capacity.
pub open spec fn conservation_ok(s: AllocState) -> bool {
    forall|r: int|
        0 <= r < s.num_resources() ==> s.available[r] + row_sum(
            #[trigger] s.allocation[r],
            s.num_processes() as int,
        ) == s.resources[r]
}

/// The allocator's state invariant: consistent dimensions, the claim bound,
/// and conservation of every resource.
pub open spec fn wf_state(s: AllocState) -> bool {
    dims_ok(s) && claim_bound_ok(s) && conservation_ok(s)
}

/// The set of indices of running processes.
pub open spec fn running_set(running: Seq<bool>) -> Set<int> {
    Set::new(|p: int| 0 <= p < running.len() && running[p])
}

/// The set of process indices that are running and not yet simulated as
/// finished by the safety scan.
pub(crate) open spec fn pending_set(running: Seq<bool>, done: Seq<bool>) -> Set<int> {
    Set::new(|p: int| 0 <= p < running.len() && running[p] && !done[p])
}

/// The matrix after writing `v` into entry `[r][p]`.
pub open spec fn grid_write(g: Seq<Seq<nat>>, r: int, p: int, v: nat) -> Seq<Seq<nat>> {
    g.update(r, g[r].update(p, v))
}

/// The matrix after zeroing column `p` in every row.
pub open spec fn zero_col(g: Seq<Seq<nat>>, p: int) -> Seq<Seq<nat>> {
    g.map_values(|row: Seq<nat>| row.update(p, 0nat))
}

/// `work` increased, in every resource, by what process `p` holds.
pub open spec fn add_col(work: Seq<nat>, allocation: Seq<Seq<nat>>, p: int) -> Seq<nat> {
    Seq::new(work.len(), |r: int| work[r] + allocation[r][p])
}

/// Process `p`'s unmet need (`claim - allocation`) fits within `work`,
/// elementwise.
pub open spec fn need_met(
    claim: Seq<Seq<nat>>,
    allocation: Seq<Seq<nat>>,
    work: Seq<nat>,
    p: int,
) -> bool {
    forall|r: int| 0 <= r < work.len() ==> claim[r][p] - allocation[r][p] <= #[trigger] work[r]
}

/// `order` lists exactly the processes in `rest`, and each one in turn can be
/// granted its full remaining need from the units accumulated so far, after
/// which its held units rejoin the pool.
pub open spec fn safe_order(
    claim: Seq<Seq<nat>>,
    allocation: Seq<Seq<nat>>,
    rest: Set<int>,
    work: Seq<nat>,
    order: Seq<int>,
) -> bool
    decreases order.len(),
{
    if order.len() == 0 {
        forall|p: int| !rest.contains(p)
    } else {
        &&& rest.contains(order[0])
        &&& need_met(claim, allocation, work, order[0])
        &&& safe_order(
            claim,
            allocation,
            rest.remove(order[0]),
            add_col(work, allocation, order[0]),
            order.drop_first(),
        )
    }
}

/// Some ordering lets every process in `rest` finish, starting from `work`
/// available units.
pub open spec fn feasible(
    claim: Seq<Seq<nat>>,
    allocation: Seq<Seq<nat>>,
    rest: Set<int>,
    work: Seq<nat>,
) -> bool {
    exists|order: Seq<int>| safe_order(claim, allocation, rest, work, order)
}

/// The state is safe: a safe sequence of all running processes exists.
pub open spec fn is_safe_state(s: AllocState) -> bool {
    feasible(s.claim, s.allocation, running_set(s.running), s.available)
}

/// The state after provisionally granting `amount` units of `resource` to
/// `process`.
pub open spec fn commit_state(s: AllocState, process: int, resource: int, amount: nat) -> AllocState {
    AllocState {
        resources: s.resources,
        claim: s.claim,
        available: s.available.update(resource, (s.available[resource] - amount) as nat),
        allocation: grid_write(
            s.allocation,
            resource,
            process,
            s.allocation[resource][process] + amount,
        ),
        running: s.running,
    }
}

/// The state after `process` returns `amount` units of `resource`.
pub open spec fn release_state(
    s: AllocState,
    process: int,
    resource: int,
    amount: nat,
) -> AllocState {
    AllocState {
        resources: s.resources,
        claim: s.claim,
        available: s.available.update(resource, (s.available[resource] + amount) as nat),
        allocation: grid_write(
            s.allocation,
            resource,
            process,
            (s.allocation[resource][process] - amount) as nat,
        ),
        running: s.running,
    }
}

/// The state after `process` terminates: everything it held rejoins the pool,
/// its allocations are zeroed, and it is marked inactive.
pub open spec fn terminate_state(s: AllocState, process: int) -> AllocState {
    AllocState {
        resources: s.resources,
        claim: s.claim,
        available: add_col(s.available, s.allocation, process),
        allocation: zero_col(s.allocation, process),
        running: s.running.update(process, false),
    }
}

/// The state of a freshly built allocator: everything available, nothing
/// held, every process running.
pub open spec fn init_state(resources: Seq<nat>, claim: Seq<Seq<nat>>, pn: nat) -> AllocState {
    AllocState {
        resources: resources,
        claim: claim,
        available: resources,
        allocation: Seq::new(resources.len(), |r: int| Seq::new(pn, |p: int| 0nat)),
        running: Seq::new(pn, |p: int| true),
    }
}

/// A single entry is at most the whole row sum.
pub(crate) proof fn lemma_row_sum_bound(row: Seq<nat>, n: int, p: int)
    requires
        0 <= p < n,
    ensures
        row[p] <= row_sum(row, n),
    decreases n,
{
    if p < n - 1 {
        lemma_row_sum_bound(row, n - 1, p);
    }
}

/// Two rows that agree below `n` have the same sum there.
pub(crate) proof fn lemma_row_sum_congruent(r1: Seq<nat>, r2: Seq<nat>, n: int)
    requires
        forall|i: int| 0 <= i < n ==> r1[i] == r2[i],
    ensures
        row_sum(r1, n) == row_sum(r2, n),
    decreases n,
{
    if n > 0 {
        lemma_row_sum_congruent(r1, r2, n - 1);
    }
}

/// Writing one entry changes the row sum by the difference of the values.
pub(crate) proof fn lemma_row_sum_update(row: Seq<nat>, n: int, p: int, v: nat)
    requires
        0 <= p < n,
        n <= row.len(),
    ensures
        row_sum(row.update(p, v), n) == row_sum(row, n) - row[p] + v,
    decreases n,
{
    if p == n - 1 {
        lemma_row_sum_congruent(row.update(p, v), row, n - 1);
    } else {
        lemma_row_sum_update(row, n - 1, p, v);
        assert(row.update(p, v)[n - 1] == row[n - 1]);
    }
}

/// Two activity sets that agree below `n` give the same filtered sum.
pub(crate) proof fn lemma_row_sum_if_congruent(row: Seq<nat>, n: int, s1: Set<int>, s2: Set<int>)
    requires
        forall|i: int| 0 <= i < n ==> s1.contains(i) == s2.contains(i),
    ensures
        row_sum_if(row, n, s1) == row_sum_if(row, n, s2),
    decreases n,
{
    if n > 0 {
        lemma_row_sum_if_congruent(row, n - 1, s1, s2);
    }
}

/// Removing an active index from the set lowers the filtered sum by exactly
/// that entry.
pub(crate) proof fn lemma_row_sum_if_remove(row: Seq<nat>, n: int, s: Set<int>, p: int)
    requires
        0 <= p < n,
        s.contains(p),
    ensures
        row_sum_if(row, n, s.remove(p)) == row_sum_if(row, n, s) - row[p],
    decreases n,
{
    if p == n - 1 {
        lemma_row_sum_if_congruent(row, n - 1, s.remove(p), s);
    } else {
        lemma_row_sum_if_remove(row, n - 1, s, p);
    }
}

/// A filtered sum never exceeds the full row sum.
pub(crate) proof fn lemma_row_sum_if_le(row: Seq<nat>, n: int, s: Set<int>)
    ensures
        row_sum_if(row, n, s) <= row_sum(row, n),
    decreases n,
{
    if n > 0 {
        lemma_row_sum_if_le(row, n - 1, s);
    }
}

/// A row of zeroes sums to zero.
pub(crate) proof fn lemma_row_sum_zero(row: Seq<nat>, n: int)
    requires
        forall|i: int| 0 <= i < n ==> row[i] == 0,
    ensures
        row_sum(row, n) == 0,
    decreases n,
{
    if n > 0 {
        lemma_row_sum_zero(row, n - 1);
    }
}

/// Marking a pending process done lowers the pending count by one.
pub(crate) proof fn lemma_num_pending_update(running: Seq<bool>, done: Seq<bool>, n: int, p: int)
    requires
        0 <= p < n,
        n <= done.len(),
        running[p],
        !done[p],
    ensures
        num_pending(running, done.update(p, true), n) == num_pending(running, done, n) - 1,
    decreases n,
{
    if p == n - 1 {
        lemma_num_pending_congruent(running, done.update(p, true), done, n - 1);
    } else {
        lemma_num_pending_update(running, done, n - 1, p);
        assert(done.update(p, true)[n - 1] == done[n - 1]);
    }
}

/// Two done vectors that agree below `n` give the same pending count.
pub(crate) proof fn lemma_num_pending_congruent(running: Seq<bool>, d1: Seq<bool>, d2: Seq<bool>, n: int)
    requires
        forall|i: int| 0 <= i < n ==> d1[i] == d2[i],
    ensures
        num_pending(running, d1, n) == num_pending(running, d2, n),
    decreases n,
{
    if n > 0 {
        lemma_num_pending_congruent(running, d1, d2, n - 1);
    }
}

/// A zero pending count means no process below `n` is still pending.
pub(crate) proof fn lemma_num_pending_zero(running: Seq<bool>, done: Seq<bool>, n: int)
    requires
        num_pending(running, done, n) == 0,
    ensures
        forall|p: int| 0 <= p < n ==> !(running[p] && !done[p]),
    decreases n,
{
    if n > 0 {
        lemma_num_pending_zero(running, done, n - 1);
    }
}

/// A positive pending count exhibits a pending process below `n`.
pub(crate) proof fn lemma_num_pending_nonzero(running: Seq<bool>, done: Seq<bool>, n: int)
    requires
        num_pending(running, done, n) > 0,
    ensures
        exists|p: int| 0 <= p < n && running[p] && !done[p],
    decreases n,
{
    if n > 0 {
        if running[n - 1] && !done[n - 1] {
            assert(0 <= n - 1 < n && running[n - 1] && !done[n - 1]);
        } else {
            lemma_num_pending_nonzero(running, done, n - 1);
        }
    }
}

/// A provisional commit within the declared claim preserves the invariant.
pub(crate) proof fn lemma_commit_preserves_wf(s: AllocState, process: int, resource: int, amount: nat)
    requires
        wf_state(s),
        0 <= resource < s.num_resources(),
        0 <= process < s.num_processes(),
        s.allocation[resource][process] + amount <= s.claim[resource][process],
        amount <= s.available[resource],
    ensures
        wf_state(commit_state(s, process, resource, amount)),
{
    let s2 = commit_state(s, process, resource, amount);
    let pn = s.num_processes() as int;
    lemma_row_sum_update(
        s.allocation[resource],
        pn,
        process,
        s.allocation[resource][process] + amount,
    );
    assert forall|r: int| 0 <= r < s2.num_resources() implies s2.available[r] + row_sum(
        #[trigger] s2.allocation[r],
        pn,
    ) == s2.resources[r] by {
        if r != resource {
            assert(s2.allocation[r] == s.allocation[r]);
            assert(s2.available[r] == s.available[r]);
        }
    }
}

/// Releasing no more than is held preserves the invariant.
pub(crate) proof fn lemma_release_preserves_wf(s: AllocState, process: int, resource: int, amount: nat)
    requires
        wf_state(s),
        0 <= resource < s.num_resources(),
        0 <= process < s.num_processes(),
        amount <= s.allocation[resource][process],
    ensures
        wf_state(release_state(s, process, resource, amount)),
{
    let s2 = release_state(s, process, resource, amount);
    let pn = s.num_processes() as int;
    lemma_row_sum_update(
        s.allocation[resource],
        pn,
        process,
        (s.allocation[resource][process] - amount) as nat,
    );
    assert forall|r: int| 0 <= r < s2.num_resources() implies s2.available[r] + row_sum(
        #[trigger] s2.allocation[r],
        pn,
    ) == s2.resources[r] by {
        if r != resource {
            assert(s2.allocation[r] == s.allocation[r]);
            assert(s2.available[r] == s.available[r]);
        }
    }
}

/// Terminating a process folds its holdings back and preserves the invariant.
pub(crate) proof fn lemma_terminate_preserves_wf(s: AllocState, process: int)
    requires
        wf_state(s),
        0 <= process < s.num_processes(),
    ensures
        wf_state(terminate_state(s, process)),
{
    let s2 = terminate_state(s, process);
    let pn = s.num_processes() as int;
    assert forall|r: int| 0 <= r < s2.num_resources() implies s2.available[r] + row_sum(
        #[trigger] s2.allocation[r],
        pn,
    ) == s2.resources[r] by {
        assert(s2.allocation[r] == s.allocation[r].update(process, 0nat));
        lemma_row_sum_update(s.allocation[r], pn, process, 0nat);
    }
    assert forall|r: int, p: int|
        0 <= r < s2.num_resources() && 0 <= p < s2.num_processes() implies #[trigger] s2.allocation[r][p]
        <= s2.claim[r][p] by {
        assert(s2.allocation[r] == s.allocation[r].update(process, 0nat));
    }
}

/// The mathematical reading of a vector of counts.
pub open spec fn nats(s: Seq<usize>) -> Seq<nat> {
    s.map_values(|x: usize| x as nat)
}

/// The mathematical reading of a matrix of counts.
pub open spec fn grid_nats(g: Seq<Vec<usize>>) -> Seq<Seq<nat>> {
    Seq::new(g.len(), |r: int| nats(g[r]@))
}

} // verus!
