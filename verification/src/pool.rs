//! The worker pool: how it is laid out when it is first asked for, that it
//! is never laid out again, and how the rows of a call are shared among its
//! workers.
//!
//! Threads are not started here. This module decides the number of workers,
//! the core each is pinned to and the rows each takes; whoever owns the
//! threads carries that out.
use vstd::prelude::*;

verus! {

/// Every element is less than the ones after it.
pub open spec fn increasing(s: Seq<usize>) -> bool {
    forall|i: int, j: int| 0 <= i < j < s.len() ==> s[i] < s[j]
}

/// Calls `num_cpus::get_physical`: the number of physical cores the
/// machine reports. Nothing is claimed of the number.
#[verifier::external_body]
fn physical_cores() -> (n: usize) {
    num_cpus::get_physical()
}

/// Calls `core_affinity::get_core_ids` and keeps the `id` of each core.
/// The crate lists the cores the current thread may run on by testing the
/// ids in ascending order, so the ids come out increasing; `None` means the
/// affinity mask could not be read.
#[verifier::external_body]
fn allowed_cores() -> (ids: Option<Vec<usize>>)
    ensures
        ids matches Some(v) ==> increasing(v@),
{
    core_affinity::get_core_ids().map(|ids| ids.into_iter().map(|core| core.id).collect())
}

/// The number of workers, and the core that each of the first
/// `pins.len()` workers is pinned to.
pub struct PoolLayout {
    pub workers: usize,
    pub pins: Vec<usize>,
}

impl PoolLayout {
    /// There is a worker, no more cores than workers, and no core twice.
    pub open spec fn wf(&self) -> bool {
        &&& self.workers >= 1
        &&& self.pins@.len() <= self.workers
        &&& forall|i: int, j: int|
            0 <= i < j < self.pins@.len() ==> self.pins@[i] != self.pins@[j]
    }
}

/// The cores the workers are pinned to: the first `physical` of the cores
/// listed, in the order listed.
pub open spec fn planned_pins(physical: usize, cores: Seq<usize>) -> Seq<usize> {
    if physical <= cores.len() {
        cores.take(physical as int)
    } else {
        cores
    }
}

/// Lays the pool out from what the machine reported: one worker per physical
/// core, worker `w` pinned to the `w`-th core listed. There is no layout
/// where the cores could not be listed or no physical core was reported.
pub fn plan_pool(physical: usize, cores: Option<Vec<usize>>) -> (plan: Option<PoolLayout>)
    ensures
        plan is Some <==> physical >= 1 && cores is Some,
        plan matches Some(layout) ==> {
            &&& layout.workers == physical
            &&& layout.pins@ == planned_pins(physical, cores->0@)
            &&& increasing(cores->0@) ==> layout.wf()
        },
{
    if physical == 0 {
        return None;
    }
    match cores {
        None => None,
        Some(ids) => {
            let mut pins = ids;
            if physical < pins.len() {
                pins.truncate(physical);
            }
            Some(PoolLayout { workers: physical, pins })
        },
    }
}

/// What a request for the pool found.
pub enum Acquired {
    /// The pool did not exist; it has been laid out now.
    Built,
    /// The pool existed and was handed out as it is.
    Reused,
    /// The pool did not exist and could not be laid out.
    Failed,
}

/// The one pool of a process: empty until it is first asked for, then laid
/// out once and kept.
pub struct Pool {
    pub layout: Option<PoolLayout>,
}

impl Pool {
    /// The pool has been laid out.
    pub open spec fn ready(&self) -> bool {
        self.layout is Some
    }

    /// The pool before anyone asked for it.
    pub fn new() -> (pool: Pool)
        ensures
            !pool.ready(),
    {
        Pool { layout: None }
    }

    /// The layout, once there is one.
    pub fn layout(&self) -> (layout: Option<&PoolLayout>)
        ensures
            layout is Some <==> self.ready(),
            layout matches Some(l) ==> *l == self.layout->0,
    {
        self.layout.as_ref()
    }

    /// A request for the pool, given what the machine reports. A pool that
    /// exists is handed out unchanged, whatever is reported now; one that
    /// does not is laid out by `plan_pool`.
    pub fn acquire_with(&mut self, physical: usize, cores: Option<Vec<usize>>) -> (found: Acquired)
        ensures
            old(self).ready() ==> found is Reused && *final(self) == *old(self),
            !old(self).ready() ==> {
                &&& final(self).ready() <==> physical >= 1 && cores is Some
                &&& final(self).ready() ==> found is Built
                &&& !final(self).ready() ==> found is Failed
                &&& final(self).layout matches Some(layout) ==> {
                    &&& layout.workers == physical
                    &&& layout.pins@ == planned_pins(physical, cores->0@)
                    &&& increasing(cores->0@) ==> layout.wf()
                }
            },
    {
        if self.layout.is_some() {
            return Acquired::Reused;
        }
        let plan = plan_pool(physical, cores);
        let found = if plan.is_some() {
            Acquired::Built
        } else {
            Acquired::Failed
        };
        self.layout = plan;
        found
    }

    /// A request for the pool. The machine is asked for its cores only
    /// where the pool does not exist yet; a pool that exists is never laid
    /// out again and never resized.
    pub fn acquire(&mut self) -> (found: Acquired)
        ensures
            old(self).ready() ==> found is Reused && *final(self) == *old(self),
            !old(self).ready() ==> {
                &&& final(self).ready() ==> found is Built && final(self).layout->0.wf()
                &&& !final(self).ready() ==> found is Failed
            },
    {
        if self.layout.is_some() {
            return Acquired::Reused;
        }
        let physical = physical_cores();
        let cores = allowed_cores();
        self.acquire_with(physical, cores)
    }
}

/// The smaller of two numbers.
pub open spec fn least(a: nat, b: nat) -> nat {
    if a <= b {
        a
    } else {
        b
    }
}

/// The first of the units of work that worker `w` takes, where `total`
/// units are shared among `workers` workers: every worker takes
/// `total / workers` units, and each of the first `total % workers` workers
/// one more.
pub open spec fn share_start(total: nat, workers: nat, w: nat) -> nat {
    w * (total / workers) + least(w, total % workers)
}

/// The shares are as even as can be and cover the units exactly: the first
/// share starts at unit 0, the last ends at `total`, each starts where the
/// one before it ends, and no two differ in size by more than one.
pub proof fn lemma_shares(total: nat, workers: nat, w: nat)
    requires
        workers >= 1,
        w < workers,
    ensures
        share_start(total, workers, 0) == 0,
        share_start(total, workers, workers) == total,
        share_start(total, workers, w) <= share_start(total, workers, w + 1) <= total,
        share_start(total, workers, w + 1) - share_start(total, workers, w) == total / workers
            + if w < total % workers {
            1nat
        } else {
            0nat
        },
{
    let q = total / workers;
    let rem = total % workers;
    assert(total == workers * q + rem && 0 <= rem < workers) by (nonlinear_arith)
        requires
            workers >= 1,
            q == total / workers,
            rem == total % workers,
    ;
    assert(0 * q == 0) by (nonlinear_arith);
    assert((w + 1) * q == w * q + q) by (nonlinear_arith);
    assert((w + 1) * q <= workers * q) by (nonlinear_arith)
        requires
            w + 1 <= workers,
            0 <= q,
    ;
}

/// Worker `w` takes unit of work `t`.
pub open spec fn takes(total: nat, workers: nat, w: nat, t: nat) -> bool {
    share_start(total, workers, w) <= t < share_start(total, workers, w + 1)
}

proof fn lemma_shares_ascend(total: nat, workers: nat, w1: nat, w2: nat)
    requires
        workers >= 1,
        w1 <= w2 <= workers,
    ensures
        share_start(total, workers, w1) <= share_start(total, workers, w2),
    decreases w2 - w1,
{
    if w1 < w2 {
        lemma_shares(total, workers, w1);
        lemma_shares_ascend(total, workers, w1 + 1, w2);
    }
}

proof fn lemma_find_worker(total: nat, workers: nat, t: nat, from: nat) -> (w: nat)
    requires
        workers >= 1,
        from < workers,
        share_start(total, workers, from) <= t < total,
    ensures
        w < workers,
        takes(total, workers, w, t),
    decreases workers - from,
{
    lemma_shares(total, workers, from);
    if t < share_start(total, workers, from + 1) {
        from
    } else {
        lemma_find_worker(total, workers, t, from + 1)
    }
}

/// Every unit of work is taken by one worker and by no other: sharing the
/// rows out neither skips a row nor hands it out twice.
pub proof fn lemma_one_worker_per_unit(total: nat, workers: nat, t: nat) -> (w: nat)
    requires
        workers >= 1,
        t < total,
    ensures
        w < workers,
        takes(total, workers, w, t),
        forall|other: nat| other < workers && takes(total, workers, other, t) ==> other == w,
{
    lemma_shares(total, workers, 0);
    let w = lemma_find_worker(total, workers, t, 0);
    assert forall|other: nat| other < workers && takes(total, workers, other, t) implies other
        == w by {
        if other < w {
            lemma_shares_ascend(total, workers, other + 1, w);
        } else if w < other {
            lemma_shares_ascend(total, workers, w + 1, other);
        }
    }
    w
}

/// The units of work `[range.0, range.1)` that worker `w` takes.
pub fn share(total: usize, workers: usize, w: usize) -> (range: (usize, usize))
    requires
        workers >= 1,
        w < workers,
    ensures
        range.0 == share_start(total as nat, workers as nat, w as nat),
        range.1 == share_start(total as nat, workers as nat, (w + 1) as nat),
        range.0 <= range.1 <= total,
{
    let q: usize = total / workers;
    let rem: usize = total % workers;
    proof {
        lemma_shares(total as nat, workers as nat, w as nat);
        assert(0 <= w * q) by (nonlinear_arith)
            requires
                0 <= w,
                0 <= q,
        ;
    }
    let extra: usize = if w < rem {
        w
    } else {
        rem
    };
    let start: usize = w * q + extra;
    let size: usize = if w < rem {
        q + 1
    } else {
        q
    };
    (start, start + size)
}

/// Row `r` of batch item `item` is unit of work `item * m + r`, and no other
/// row is.
pub proof fn lemma_unit_of_row(item: nat, r: nat, m: nat)
    by (nonlinear_arith)
    requires
        r < m,
    ensures
        (item * m + r) / m == item,
        (item * m + r) % m == r,
{
}

/// The batch item and the row that unit of work `t` stands for, where each
/// item has `m` rows: units are numbered item by item, row by row.
pub fn unit_row(t: usize, m: usize) -> (at: (usize, usize))
    requires
        m >= 1,
    ensures
        at.0 == t / m,
        at.1 == t % m,
        at.0 * m + at.1 == t,
        at.1 < m,
{
    proof {
        assert(t == (t / m) * m + t % m && 0 <= t % m < m && 0 <= t / m) by (nonlinear_arith)
            requires
                m >= 1,
                0 <= t,
        ;
    }
    (t / m, t % m)
}

} // verus!
