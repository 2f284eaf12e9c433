//! The worker-pool scheduler's bookkeeping: a fixed pool of worker
//! identifiers split into a free set and a busy set. Assignment moves a
//! worker from free to busy; completion — successful or failed alike —
//! returns it to free, so no worker is ever leaked and the two sets
//! always partition the pool.

use vstd::prelude::*;

use vstd::assert_sets_equal;

verus! {

/// How an assigned task ended. The pool treats both outcomes uniformly:
/// either way the worker returns to the free set.
pub enum TaskOutcome {
    Success,
    Failure,
}

/// The identifiers of a pool of `n` workers.
pub open spec fn spec_all_ids(n: usize) -> Set<usize> {
    Set::new(|w: usize| w < n)
}

/// The fixed-size pool of worker identifiers, split into the workers
/// awaiting an assignment and the workers running a task.
pub struct WorkerPool {
    pool_size: usize,
    free: Vec<usize>,
    busy: Vec<usize>,
}

impl WorkerPool {
    /// The number of workers in the pool.
    pub closed spec fn spec_pool_size(self) -> usize {
        self.pool_size
    }

    /// The free workers, in assignment order (the last is assigned
    /// next).
    pub closed spec fn spec_free(self) -> Seq<usize> {
        self.free@
    }

    /// The busy workers.
    pub closed spec fn spec_busy(self) -> Seq<usize> {
        self.busy@
    }

    /// The set of free workers.
    pub open spec fn free_set(self) -> Set<usize> {
        self.spec_free().to_set()
    }

    /// The set of busy workers.
    pub open spec fn busy_set(self) -> Set<usize> {
        self.spec_busy().to_set()
    }

    /// The pool invariant: no duplicates, the free and busy workers are
    /// disjoint, and together they are exactly the pool's identifiers.
    pub closed spec fn wf(self) -> bool {
        &&& forall|i: int, j: int|
            0 <= i < j < self.free@.len() ==> self.free@[i] != self.free@[j]
        &&& forall|i: int, j: int|
            0 <= i < j < self.busy@.len() ==> self.busy@[i] != self.busy@[j]
        &&& forall|i: int, j: int|
            0 <= i < self.free@.len() && 0 <= j < self.busy@.len() ==> self.free@[i]
                != self.busy@[j]
        &&& forall|i: int| 0 <= i < self.free@.len() ==> self.free@[i] < self.pool_size
        &&& forall|i: int| 0 <= i < self.busy@.len() ==> self.busy@[i] < self.pool_size
        &&& forall|w: usize|
            w < self.pool_size ==> (self.free@.contains(w) || self.busy@.contains(w))
    }

    /// The number of workers awaiting an assignment.
    pub fn free_count(&self) -> (r: usize)
        ensures
            r == self.spec_free().len(),
    {
        self.free.len()
    }

    /// The number of workers running a task.
    pub fn busy_count(&self) -> (r: usize)
        ensures
            r == self.spec_busy().len(),
    {
        self.busy.len()
    }

    /// Whether the given worker is currently busy.
    pub fn is_busy(&self, w: usize) -> (r: bool)
        ensures
            r == self.busy_set().contains(w),
    {
        let n = self.busy.len();
        let mut i: usize = 0;
        while i < n
            invariant
                n == self.spec_busy().len(),
                i <= n,
                forall|k: int| 0 <= k < i ==> self.spec_busy()[k] != w,
            decreases n - i,
        {
            if self.busy[i] == w {
                proof {
                    assert(self.spec_busy()[i as int] == w);
                    assert(self.spec_busy().contains(w));
                }
                return true;
            }
            i = i + 1;
        }
        proof {
            if self.spec_busy().contains(w) {
                let k = choose|k: int|
                    0 <= k < self.spec_busy().len() && self.spec_busy()[k] == w;
                assert(self.spec_busy()[k] != w);
            }
        }
        false
    }

    /// Creates a pool of `n` workers, all free.
    pub fn new(n: usize) -> (r: WorkerPool)
        ensures
            r.wf(),
            r.spec_pool_size() == n,
            r.spec_free().len() == n,
            forall|i: int| 0 <= i < n ==> r.spec_free()[i] == i,
            r.free_set() == spec_all_ids(n),
            r.spec_busy() == Seq::<usize>::empty(),
    {
        let mut free: Vec<usize> = Vec::new();
        let mut w: usize = 0;
        while w < n
            invariant
                w <= n,
                free@.len() == w,
                forall|i: int| 0 <= i < w ==> free@[i] == i,
            decreases n - w,
        {
            free.push(w);
            w = w + 1;
        }
        let r = WorkerPool { pool_size: n, free, busy: Vec::new() };
        proof {
            assert forall|x: usize| x < n implies r.free@.contains(x) by {
                assert(r.free@[x as int] == x);
            }
            assert_sets_equal!(r.free_set() == spec_all_ids(n), a => {
                if a < n {
                    assert(r.spec_free()[a as int] == a);
                    assert(r.spec_free().contains(a));
                } else {
                    if r.spec_free().contains(a) {
                        let i = choose|i: int| 0 <= i < r.spec_free().len() && r.spec_free()[i] == a;
                        assert(r.spec_free()[i] == i);
                    }
                }
            });
        }
        r
    }

    /// Takes one free worker for an assignment and marks it busy; with
    /// no worker free, nothing changes.
    pub fn acquire(&mut self) -> (r: Option<usize>)
        requires
            old(self).wf(),
        ensures
            final(self).wf(),
            final(self).spec_pool_size() == old(self).spec_pool_size(),
            r is None <==> old(self).spec_free().len() == 0,
            r is None ==> final(self).spec_free() == old(self).spec_free()
                && final(self).spec_busy() == old(self).spec_busy(),
            r matches Some(w) ==> {
                &&& w == old(self).spec_free().last()
                &&& old(self).free_set().contains(w)
                &&& final(self).spec_free() == old(self).spec_free().drop_last()
                &&& final(self).spec_busy() == old(self).spec_busy().push(w)
                &&& final(self).free_set() == old(self).free_set().remove(w)
                &&& final(self).busy_set() == old(self).busy_set().insert(w)
            },
    {
        let popped = self.free.pop();
        match popped {
            None => {
                None
            },
            Some(w) => {
                self.busy.push(w);
                proof {
                    let f0 = old(self).spec_free();
                    let b0 = old(self).spec_busy();
                    assert(f0.contains(w)) by {
                        assert(f0[f0.len() - 1] == w);
                    }
                    assert_sets_equal!(self.free_set() == old(self).free_set().remove(w), a => {
                        if self.spec_free().contains(a) {
                            let i = choose|i: int|
                                0 <= i < self.spec_free().len() && self.spec_free()[i] == a;
                            assert(f0[i] == a);
                        }
                        if a != w && f0.contains(a) {
                            let i = choose|i: int| 0 <= i < f0.len() && f0[i] == a;
                            assert(i < f0.len() - 1);
                            assert(self.spec_free()[i] == a);
                        }
                    });
                    assert_sets_equal!(self.busy_set() == old(self).busy_set().insert(w), a => {
                        if a == w {
                            assert(self.spec_busy()[b0.len() as int] == w);
                            assert(self.spec_busy().contains(w));
                        } else {
                            if b0.contains(a) {
                                let i = choose|i: int| 0 <= i < b0.len() && b0[i] == a;
                                assert(self.spec_busy()[i] == a);
                            }
                            if self.spec_busy().contains(a) {
                                let i = choose|i: int|
                                    0 <= i < self.spec_busy().len() && self.spec_busy()[i] == a;
                                assert(b0[i] == a);
                            }
                        }
                    });
                    assert forall|x: usize| x < self.pool_size implies (self.free@.contains(x)
                        || self.busy@.contains(x)) by {
                        if f0.contains(x) {
                            let i = choose|i: int| 0 <= i < f0.len() && f0[i] == x;
                            if i < f0.len() - 1 {
                                assert(self.free@[i] == x);
                            } else {
                                assert(self.busy@[b0.len() as int] == x);
                            }
                        } else {
                            assert(b0.contains(x));
                            let i = choose|i: int| 0 <= i < b0.len() && b0[i] == x;
                            assert(self.busy@[i] == x);
                        }
                    }
                }
                Some(w)
            },
        }
    }

    fn busy_index_of(&self, w: usize) -> (idx: usize)
        requires
            self.busy_set().contains(w),
        ensures
            idx < self.spec_busy().len(),
            self.spec_busy()[idx as int] == w,
    {
        let n = self.busy.len();
        let mut i: usize = 0;
        while i < n
            invariant
                n == self.spec_busy().len(),
                i <= n,
                self.spec_busy().contains(w),
                forall|k: int| 0 <= k < i ==> self.spec_busy()[k] != w,
            decreases n - i,
        {
            if self.busy[i] == w {
                return i;
            }
            i = i + 1;
        }
        proof {
            let k = choose|k: int|
                0 <= k < self.spec_busy().len() && self.spec_busy()[k] == w;
            assert(self.spec_busy()[k] != w);
        }
        0
    }

    /// Returns a busy worker to the free set when its task completes.
    /// The outcome is consumed uniformly: a failed task releases its
    /// worker exactly as a successful one does, so no worker leaks.
    pub fn release(&mut self, w: usize, outcome: TaskOutcome)
        requires
            old(self).wf(),
            old(self).busy_set().contains(w),
        ensures
            final(self).wf(),
            final(self).spec_pool_size() == old(self).spec_pool_size(),
            final(self).free_set() == old(self).free_set().insert(w),
            final(self).busy_set() == old(self).busy_set().remove(w),
            final(self).spec_free() == old(self).spec_free().push(w),
    {
        let n = self.busy.len();
        let ghost b0 = self.spec_busy();
        let i = self.busy_index_of(w);
        self.busy.remove(i);
        self.free.push(w);
        proof {
            let f0 = old(self).spec_free();
            assert(self.spec_free() =~= f0.push(w));
            assert(self.spec_busy() =~= b0.subrange(0, i as int) + b0.subrange(
                i as int + 1,
                n as int,
            ));
            assert_sets_equal!(self.free_set() == old(self).free_set().insert(w), a => {
                if a == w {
                    assert(self.spec_free()[f0.len() as int] == w);
                    assert(self.spec_free().contains(w));
                } else {
                    if f0.contains(a) {
                        let k = choose|k: int| 0 <= k < f0.len() && f0[k] == a;
                        assert(self.spec_free()[k] == a);
                    }
                    if self.spec_free().contains(a) {
                        let k = choose|k: int|
                            0 <= k < self.spec_free().len() && self.spec_free()[k] == a;
                        assert(f0[k] == a);
                    }
                }
            });
            assert_sets_equal!(self.busy_set() == old(self).busy_set().remove(w), a => {
                if self.spec_busy().contains(a) {
                    let k = choose|k: int|
                        0 <= k < self.spec_busy().len() && self.spec_busy()[k] == a;
                    if k < i {
                        assert(b0[k] == a);
                    } else {
                        assert(b0[k + 1] == a);
                    }
                    assert(a != w);
                    assert(b0.contains(a));
                }
                if a != w && b0.contains(a) {
                    let k = choose|k: int| 0 <= k < b0.len() && b0[k] == a;
                    if k < i {
                        assert(self.spec_busy()[k] == a);
                    } else {
                        assert(k != i);
                        assert(self.spec_busy()[k - 1] == a);
                    }
                    assert(self.spec_busy().contains(a));
                }
            });
            assert forall|x: usize| x < self.pool_size implies (self.free@.contains(x)
                || self.busy@.contains(x)) by {
                if old(self).free@.contains(x) {
                    let k = choose|k: int|
                        0 <= k < old(self).free@.len() && old(self).free@[k] == x;
                    assert(self.free@[k] == x);
                } else {
                    assert(b0.contains(x));
                    if x == w {
                        assert(self.free@[old(self).free@.len() as int] == w);
                    } else {
                        assert(self.busy_set().contains(x));
                        assert(self.spec_busy().contains(x));
                    }
                }
            }
        }
    }
}

impl WorkerPool {
    /// Plans one dispatch round: repeatedly pops the most recently added
    /// backlog file and hands it to a free worker, marking it busy,
    /// until the backlog or the free workers are exhausted. Returns the
    /// (worker, file) assignments in dispatch order; every assigned file
    /// leaves the backlog and every assigned worker becomes busy.
    pub fn assign_round(&mut self, backlog: &mut Vec<String>) -> (r: Vec<(usize, String)>)
        requires
            old(self).wf(),
        ensures
            final(self).wf(),
            final(self).spec_pool_size() == old(self).spec_pool_size(),
            r@.len() == if old(self).spec_free().len() <= old(backlog)@.len() {
                old(self).spec_free().len()
            } else {
                old(backlog)@.len()
            },
            final(self).spec_free() == old(self).spec_free().take(
                old(self).spec_free().len() - r@.len(),
            ),
            final(backlog)@ == old(backlog)@.take(old(backlog)@.len() - r@.len()),
            final(self).spec_busy() == old(self).spec_busy() + r@.map_values(
                |a: (usize, String)| a.0,
            ),
            forall|i: int|
                0 <= i < r@.len() ==> (#[trigger] r@[i]).0 == old(self).spec_free()[old(
                    self,
                ).spec_free().len() - 1 - i],
            forall|i: int|
                0 <= i < r@.len() ==> (#[trigger] r@[i]).1 == old(backlog)@[old(
                    backlog,
                )@.len() - 1 - i],
    {
        let ghost f0 = old(self).spec_free();
        let ghost b0 = old(backlog)@;
        let mut r: Vec<(usize, String)> = Vec::new();
        proof {
            assert(self.spec_free() =~= f0.take(f0.len() as int));
            assert(backlog@ =~= b0.take(b0.len() as int));
            assert(self.spec_busy() =~= old(self).spec_busy() + r@.map_values(
                |a: (usize, String)| a.0,
            ));
        }
        while self.free.len() > 0 && backlog.len() > 0
            invariant
                self.wf(),
                self.spec_pool_size() == old(self).spec_pool_size(),
                r@.len() <= f0.len(),
                r@.len() <= b0.len(),
                self.spec_free() == f0.take(f0.len() - r@.len()),
                backlog@ == b0.take(b0.len() - r@.len()),
                self.spec_busy() == old(self).spec_busy() + r@.map_values(
                    |a: (usize, String)| a.0,
                ),
                forall|i: int|
                    0 <= i < r@.len() ==> (#[trigger] r@[i]).0 == f0[f0.len() - 1 - i],
                forall|i: int|
                    0 <= i < r@.len() ==> (#[trigger] r@[i]).1 == b0[b0.len() - 1 - i],
            decreases backlog@.len(),
        {
            let ghost k = r@.len() as int;
            let picked = self.acquire();
            let file = backlog.pop();
            match (picked, file) {
                (Some(w), Some(f)) => {
                    proof {
                        assert(w == f0[f0.len() - 1 - k]);
                        assert(f == b0[b0.len() - 1 - k]);
                        assert(self.spec_free() =~= f0.take(f0.len() - (k + 1)));
                        assert(backlog@ =~= b0.take(b0.len() - (k + 1)));
                        assert(r@.push((w, f)).map_values(|a: (usize, String)| a.0)
                            =~= r@.map_values(|a: (usize, String)| a.0).push(w));
                        assert(old(self).spec_busy() + r@.push((w, f)).map_values(
                            |a: (usize, String)| a.0,
                        ) =~= (old(self).spec_busy() + r@.map_values(
                            |a: (usize, String)| a.0,
                        )).push(w));
                    }
                    r.push((w, f));
                },
                _ => {
                    proof {
                        assert(false);
                    }
                },
            }
        }
        r
    }
}

/// The worker-pool invariant, observable after every operation: the free
/// and busy sets are disjoint and together they are exactly the fixed
/// pool of identifiers — also after a task failed, since release treats
/// failure like success.
pub proof fn lemma_pool_partition(p: WorkerPool)
    requires
        p.wf(),
    ensures
        p.free_set().intersect(p.busy_set()) == Set::<usize>::empty(),
        p.free_set().union(p.busy_set()) == spec_all_ids(p.spec_pool_size()),
{
    assert_sets_equal!(p.free_set().intersect(p.busy_set()) == Set::<usize>::empty(), a => {
        if p.free_set().contains(a) && p.busy_set().contains(a) {
            let i = choose|i: int| 0 <= i < p.spec_free().len() && p.spec_free()[i] == a;
            let j = choose|j: int| 0 <= j < p.spec_busy().len() && p.spec_busy()[j] == a;
            assert(p.spec_free()[i] != p.spec_busy()[j]);
        }
    });
    assert_sets_equal!(
        p.free_set().union(p.busy_set()) == spec_all_ids(p.spec_pool_size()),
        a => {
            if p.spec_free().contains(a) {
                let i = choose|i: int| 0 <= i < p.spec_free().len() && p.spec_free()[i] == a;
            }
            if p.spec_busy().contains(a) {
                let j = choose|j: int| 0 <= j < p.spec_busy().len() && p.spec_busy()[j] == a;
            }
        }
    );
}

} // verus!
