//! Assignment of morsels to workers, in turn.

use crate::morsel::Morsel;
use vstd::prelude::*;

verus! {

/// How many cores are taken to share a memory node.
pub const DEFAULT_CORES_PER_NUMA_NODE: u32 = 8;

/// A worker and where it runs.
#[derive(Debug, Clone)]
pub struct WorkerThread {
    pub cpu_id: u32,
    pub numa_node: u32,
}

impl WorkerThread {
    pub fn new(cpu_id: u32, numa_node: u32) -> (w: Self)
        ensures
            w.cpu_id == cpu_id,
            w.numa_node == numa_node,
    {
        WorkerThread { cpu_id, numa_node }
    }
}

/// The processor of worker `i`.
pub open spec fn cpu_of(i: int) -> int {
    i % 0x1_0000_0000
}

/// A pool of workers and whose turn it is.
pub struct MorselDispatcher {
    workers: Vec<WorkerThread>,
    next_worker: usize,
}

impl MorselDispatcher {
    pub closed spec fn workers(&self) -> Seq<WorkerThread> {
        self.workers@
    }

    /// The worker that gets the next morsel.
    pub closed spec fn turn(&self) -> int {
        self.next_worker as int
    }

    /// It is the turn of a worker that exists.
    pub open spec fn wf(&self) -> bool {
        0 <= self.turn() && (self.workers().len() > 0 ==> self.turn() < self.workers().len())
    }

    /// A pool of `num_workers` workers, each on its own processor.
    pub fn new(num_workers: usize) -> (d: Self)
        ensures
            d.wf(),
            d.turn() == 0,
            d.workers().len() == num_workers,
            forall|i: int|
                0 <= i < num_workers ==> (#[trigger] d.workers()[i]).cpu_id == cpu_of(i) && d.workers()[i].numa_node
                    == cpu_of(i) / DEFAULT_CORES_PER_NUMA_NODE as int,
    {
        let mut workers: Vec<WorkerThread> = Vec::new();
        let mut i: usize = 0;
        while i < num_workers
            invariant
                i <= num_workers,
                workers.len() == i,
                forall|k: int|
                    0 <= k < i ==> (#[trigger] workers@[k]).cpu_id == cpu_of(k) && workers@[k].numa_node == cpu_of(k)
                        / DEFAULT_CORES_PER_NUMA_NODE as int,
            decreases num_workers - i,
        {
            let cpu_id: u32 = (i as u64 % 0x1_0000_0000) as u32;
            workers.push(WorkerThread::new(cpu_id, cpu_id / DEFAULT_CORES_PER_NUMA_NODE));
            i = i + 1;
        }
        MorselDispatcher { workers, next_worker: 0 }
    }

    /// Hands a morsel to the worker whose turn it is and passes the turn on.
    pub fn dispatch(&mut self, morsel: Morsel) -> (chosen: usize)
        requires
            old(self).wf(),
            old(self).workers().len() > 0,
        ensures
            final(self).wf(),
            final(self).workers() == old(self).workers(),
            chosen == old(self).turn(),
            chosen < old(self).workers().len(),
            final(self).turn() == (chosen + 1) % old(self).workers().len() as int,
    {
        let n: usize = self.workers.len();
        proof {
            vstd::arithmetic::div_mod::lemma_small_mod(self.next_worker as nat, n as nat);
        }
        let chosen: usize = self.next_worker % n;
        self.next_worker = if chosen + 1 == n {
            0
        } else {
            chosen + 1
        };
        proof {
            if chosen + 1 == n {
                assert((chosen + 1) % (n as int) == 0) by (nonlinear_arith)
                    requires
                        chosen + 1 == n,
                        n > 0,
                ;
            } else {
                vstd::arithmetic::div_mod::lemma_small_mod((chosen + 1) as nat, n as nat);
            }
        }
        chosen
    }

    pub fn worker_count(&self) -> (n: usize)
        ensures
            n == self.workers().len(),
    {
        self.workers.len()
    }

    /// A worker by number.
    pub fn worker(&self, idx: usize) -> (w: Option<&WorkerThread>)
        ensures
            match w {
                Some(worker) => idx < self.workers().len() && *worker == self.workers()[idx as int],
                None => idx >= self.workers().len(),
            },
    {
        if idx < self.workers.len() {
            Some(&self.workers[idx])
        } else {
            None
        }
    }
}

impl Default for MorselDispatcher {
    fn default() -> (d: Self)
        ensures
            d.wf(),
            d.turn() == 0,
            d.workers().len() == 1,
    {
        MorselDispatcher::new(1)
    }
}

/// Whose turn it is after `k` morsels have been handed to `n` workers.
pub open spec fn turn_after(n: int, k: nat) -> int
    decreases k,
{
    if k == 0 {
        0
    } else {
        (turn_after(n, (k - 1) as nat) + 1) % n
    }
}

/// Morsel `k` goes to worker `k` modulo the number of workers.
pub proof fn assignment_is_round_robin(n: int, k: nat)
    requires
        n > 0,
    ensures
        turn_after(n, k) == k as int % n,
        turn_after(n, k + n as nat) == turn_after(n, k),
    decreases k,
{
    lemma_turn(n, k);
    lemma_turn(n, k + n as nat);
    vstd::arithmetic::div_mod::lemma_mod_add_multiples_vanish(k as int, n);
}

proof fn lemma_turn(n: int, k: nat)
    requires
        n > 0,
    ensures
        turn_after(n, k) == k as int % n,
    decreases k,
{
    if k == 0 {
        vstd::arithmetic::div_mod::lemma_small_mod(0, n as nat);
    } else {
        lemma_turn(n, (k - 1) as nat);
        vstd::arithmetic::div_mod::lemma_add_mod_noop(k - 1, 1, n);
        vstd::arithmetic::div_mod::lemma_add_mod_noop((k - 1) % n, 1, n);
        vstd::arithmetic::div_mod::lemma_mod_twice(k - 1, n);
    }
}

} // verus!
