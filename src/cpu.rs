use vstd::prelude::*;

use crate::conf::{contains_name, names_of, requires_met, Task};
use crate::schedule::ScheduleError;

verus! {

/// The readiness state of one unit: its tasks, which of them have completed, the
/// conditions that hold on it, and the queue of tasks that may be offered next.
pub struct CPU {
    pub id: u32,
    tasks: Vec<Task>,
    runnable_tasks: Vec<usize>,
    completed_tasks: Vec<bool>,
    satisfied: Vec<String>,
}

impl CPU {
    /// The unit's identifier.
    pub closed spec fn id_spec(&self) -> u32 {
        self.id
    }

    /// The unit's tasks, in configuration order.
    pub closed spec fn tasks_spec(&self) -> Seq<Task> {
        self.tasks@
    }

    /// Positions (in `tasks_spec`) of the tasks that may still be offered.
    pub closed spec fn runnable_spec(&self) -> Seq<usize> {
        self.runnable_tasks@
    }

    /// For each task, whether it has completed.
    pub closed spec fn completed_spec(&self) -> Seq<bool> {
        self.completed_tasks@
    }

    /// The conditions that hold on this unit.
    pub closed spec fn satisfied_spec(&self) -> Set<Seq<char>> {
        names_of(self.satisfied@)
    }

    /// Task `i` may run: it exists, has not completed, and all it requires holds.
    pub open spec fn ready(&self, i: int) -> bool {
        &&& 0 <= i < self.tasks_spec().len()
        &&& !self.completed_spec()[i]
        &&& requires_met(self.tasks_spec()[i], self.satisfied_spec())
    }

    /// The bookkeeping is consistent: one completion flag per task, and the queue
    /// holds distinct positions of tasks, in increasing order.
    pub closed spec fn wf(&self) -> bool {
        &&& self.completed_tasks@.len() == self.tasks@.len()
        &&& forall|k: int|
            0 <= k < self.runnable_tasks@.len() ==> #[trigger] self.runnable_tasks@[k] < self.tasks@.len()
        &&& forall|a: int, b: int|
            0 <= a < b < self.runnable_tasks@.len() ==> #[trigger] self.runnable_tasks@[a]
                < #[trigger] self.runnable_tasks@[b]
    }

    /// What a well-formed unit's bookkeeping gives its users.
    pub proof fn lemma_wf(&self)
        requires
            self.wf(),
        ensures
            self.completed_spec().len() == self.tasks_spec().len(),
            forall|k: int|
                0 <= k < self.runnable_spec().len() ==> #[trigger] self.runnable_spec()[k]
                    < self.tasks_spec().len(),
            self.runnable_spec().no_duplicates(),
    {
        assert forall|a: int, b: int|
            0 <= a < self.runnable_spec().len() && 0 <= b < self.runnable_spec().len() && a != b implies self.runnable_spec()[a]
            != self.runnable_spec()[b] by {
            if a < b {
                assert(self.runnable_tasks@[a] < self.runnable_tasks@[b]);
            } else {
                assert(self.runnable_tasks@[b] < self.runnable_tasks@[a]);
            }
        }
    }

    /// The queue holds exactly the tasks that are ready, in increasing order.
    pub open spec fn queue_is_ready_set(&self) -> bool {
        &&& forall|k: int|
            0 <= k < self.runnable_spec().len() ==> self.ready(#[trigger] self.runnable_spec()[k] as int)
        &&& forall|i: int| #[trigger] self.ready(i) ==> self.runnable_spec().contains(i as usize)
    }

    /// A unit with the given tasks, on which the `initial` conditions hold; no task has
    /// completed, and every task whose requirements hold is queued.
    pub fn new(id: u32, tasks: Vec<Task>, initial: Vec<String>) -> (r: Self)
        ensures
            r.wf(),
            r.id_spec() == id,
            r.tasks_spec() == tasks@,
            r.completed_spec() == Seq::new(tasks@.len(), |i: int| false),
            r.satisfied_spec() == names_of(initial@),
            r.queue_is_ready_set(),
    {
        let mut completed_tasks: Vec<bool> = Vec::new();
        let mut i: usize = 0;
        while i < tasks.len()
            invariant
                i <= tasks.len(),
                completed_tasks@ == Seq::new(i as nat, |k: int| false),
            decreases tasks.len() - i,
        {
            completed_tasks.push(false);
            i = i + 1;
        }
        let mut cpu = CPU {
            id,
            tasks,
            runnable_tasks: Vec::new(),
            completed_tasks,
            satisfied: initial,
        };
        cpu.reset();
        cpu
    }

    /// Position of the task with this name, if any.
    pub fn find(&self, task: &Task) -> (r: Option<usize>)
        ensures
            r matches Some(i) ==> i < self.tasks_spec().len() && self.tasks_spec()[i as int].name@
                == task.name@,
            r is None ==> forall|i: int|
                0 <= i < self.tasks_spec().len() ==> #[trigger] self.tasks_spec()[i].name@ != task.name@,
    {
        let mut i: usize = 0;
        while i < self.tasks.len()
            invariant
                i <= self.tasks.len(),
                forall|j: int| 0 <= j < i ==> #[trigger] self.tasks@[j].name@ != task.name@,
            decreases self.tasks.len() - i,
        {
            if self.tasks[i].name == task.name {
                return Some(i);
            }
            i = i + 1;
        }
        None
    }

    /// The task at position `i`.
    pub fn task_at(&self, i: usize) -> (r: &Task)
        requires
            i < self.tasks_spec().len(),
        ensures
            *r == self.tasks_spec()[i as int],
    {
        &self.tasks[i]
    }

    /// Whether task `i` has completed.
    pub fn is_completed(&self, i: usize) -> (r: bool)
        requires
            self.wf(),
            i < self.tasks_spec().len(),
        ensures
            r == self.completed_spec()[i as int],
    {
        self.completed_tasks[i]
    }

    /// Number of tasks of this unit.
    pub fn len(&self) -> (r: usize)
        ensures
            r == self.tasks_spec().len(),
    {
        self.tasks.len()
    }

    /// Takes the next task to offer off the queue: the queued task with the most cycles,
    /// the earliest queued among equals. Returns its position, or `None` when the queue
    /// is empty. Only the queue changes.
    pub fn get_task(&mut self) -> (r: Option<usize>)
        requires
            old(self).wf(),
        ensures
            final(self).wf(),
            final(self).id_spec() == old(self).id_spec(),
            final(self).tasks_spec() == old(self).tasks_spec(),
            final(self).completed_spec() == old(self).completed_spec(),
            final(self).satisfied_spec() == old(self).satisfied_spec(),
            old(self).runnable_spec().len() == 0 <==> r is None,
            r is None ==> final(self).runnable_spec() == old(self).runnable_spec(),
            r matches Some(t) ==> exists|p: int|
                0 <= p < old(self).runnable_spec().len() && old(self).runnable_spec()[p] == t
                    && final(self).runnable_spec() == old(self).runnable_spec().remove(p)
                    && (forall|q: int|
                    0 <= q < old(self).runnable_spec().len() ==> old(self).tasks_spec()[old(
                        self,
                    ).runnable_spec()[q] as int].cycles <= old(self).tasks_spec()[t as int].cycles)
                    && (forall|q: int|
                    0 <= q < p ==> old(self).tasks_spec()[old(self).runnable_spec()[q] as int].cycles
                        < old(self).tasks_spec()[t as int].cycles),
    {
        if self.runnable_tasks.len() == 0 {
            return None;
        }
        let mut best: usize = 0;
        let mut k: usize = 1;
        while k < self.runnable_tasks.len()
            invariant
                self.wf(),
                1 <= k <= self.runnable_tasks.len(),
                best < k,
                forall|q: int|
                    0 <= q < k ==> self.tasks@[self.runnable_tasks@[q] as int].cycles
                        <= self.tasks@[self.runnable_tasks@[best as int] as int].cycles,
                forall|q: int|
                    0 <= q < best ==> self.tasks@[self.runnable_tasks@[q] as int].cycles
                        < self.tasks@[self.runnable_tasks@[best as int] as int].cycles,
            decreases self.runnable_tasks.len() - k,
        {
            if self.tasks[self.runnable_tasks[k]].cycles > self.tasks[self.runnable_tasks[best]].cycles {
                best = k;
            }
            k = k + 1;
        }
        let ghost before = self.runnable_tasks@;
        assert(self.tasks@ == old(self).tasks@ && before == old(self).runnable_tasks@);
        assert(forall|q: int|
            0 <= q < before.len() ==> old(self).tasks_spec()[before[q] as int].cycles <= old(
                self,
            ).tasks_spec()[before[best as int] as int].cycles);
        assert(forall|q: int|
            0 <= q < best ==> old(self).tasks_spec()[before[q] as int].cycles < old(
                self,
            ).tasks_spec()[before[best as int] as int].cycles);
        let t = self.runnable_tasks.remove(best);
        assert forall|a: int, b: int|
            0 <= a < b < self.runnable_tasks@.len() implies #[trigger] self.runnable_tasks@[a]
            < #[trigger] self.runnable_tasks@[b] by {
            let a0 = if a < best {
                a
            } else {
                a + 1
            };
            let b0 = if b < best {
                b
            } else {
                b + 1
            };
            assert(before[a0] < before[b0]);
        }
        assert forall|k: int| 0 <= k < self.runnable_tasks@.len() implies #[trigger] self.runnable_tasks@[k]
            < self.tasks@.len() by {
            let k0 = if k < best {
                k
            } else {
                k + 1
            };
            assert(before[k0] < self.tasks@.len());
        }
        let ghost p = best as int;
        assert(0 <= p < old(self).runnable_spec().len() && old(self).runnable_spec()[p] == t
            && self.runnable_spec() == old(self).runnable_spec().remove(p) && (forall|q: int|
            0 <= q < old(self).runnable_spec().len() ==> old(self).tasks_spec()[old(
                self,
            ).runnable_spec()[q] as int].cycles <= old(self).tasks_spec()[t as int].cycles) && (forall|
            q: int,
        |
            0 <= q < p ==> old(self).tasks_spec()[old(self).runnable_spec()[q] as int].cycles < old(
                self,
            ).tasks_spec()[t as int].cycles));
        Some(t)
    }

    /// Marks the task with the same name as `task` completed, and makes the conditions
    /// that it satisfies hold. Fails, changing nothing, when this unit has no task of
    /// that name: the error names this unit and the task. The queue is left as it was.
    pub fn task_complete(&mut self, task: &Task) -> (r: Result<(), ScheduleError>)
        requires
            old(self).wf(),
        ensures
            final(self).wf(),
            final(self).id_spec() == old(self).id_spec(),
            final(self).tasks_spec() == old(self).tasks_spec(),
            final(self).runnable_spec() == old(self).runnable_spec(),
            r is Ok <==> exists|i: int|
                0 <= i < old(self).tasks_spec().len() && #[trigger] old(self).tasks_spec()[i].name@
                    == task.name@,
            r is Err ==> *final(self) == *old(self),
            r is Err ==> (r matches Err(ScheduleError::UnknownTask { unit, task: name }) && unit == old(self).id_spec()
                && name@ == task.name@),
            r is Ok ==> exists|i: int|
                0 <= i < old(self).tasks_spec().len() && old(self).tasks_spec()[i].name@ == task.name@
                    && final(self).completed_spec() == old(self).completed_spec().update(i, true)
                    && final(self).satisfied_spec() == old(self).satisfied_spec().union(
                    names_of(old(self).tasks_spec()[i].satisfies@),
                ),
    {
        match self.find(task) {
            None => Err(ScheduleError::UnknownTask { unit: self.id, task: task.name.clone() }),
            Some(i) => {
                self.completed_tasks.set(i, true);
                let ghost sat0 = self.satisfied@;
                let n = self.tasks[i].satisfies.len();
                let mut k: usize = 0;
                while k < n
                    invariant
                        self.wf(),
                        self.id == old(self).id,
                        self.tasks@ == old(self).tasks@,
                        self.runnable_tasks@ == old(self).runnable_tasks@,
                        self.completed_tasks@ == old(self).completed_tasks@.update(i as int, true),
                        i < self.tasks@.len(),
                        n == self.tasks@[i as int].satisfies.len(),
                        k <= n,
                        names_of(self.satisfied@) == names_of(sat0).union(
                            names_of(self.tasks@[i as int].satisfies@.subrange(0, k as int)),
                        ),
                    decreases n - k,
                {
                    let c = self.tasks[i].satisfies[k].clone();
                    let ghost s0 = self.satisfied@;
                    let ghost sub = self.tasks@[i as int].satisfies@.subrange(0, k as int);
                    let ghost sub1 = self.tasks@[i as int].satisfies@.subrange(0, k + 1);
                    self.satisfied.push(c);
                    assert(names_of(self.satisfied@) =~= names_of(s0).insert(c@)) by {
                        assert forall|x: Seq<char>| names_of(s0).insert(c@).contains(x) implies names_of(
                            self.satisfied@,
                        ).contains(x) by {
                            if x == c@ {
                                assert(self.satisfied@[s0.len() as int]@ == x);
                            } else {
                                let j = choose|j: int| 0 <= j < s0.len() && s0[j]@ == x;
                                assert(self.satisfied@[j]@ == x);
                            }
                        }
                        assert forall|x: Seq<char>| names_of(self.satisfied@).contains(x) implies names_of(
                            s0,
                        ).insert(c@).contains(x) by {
                            let j = choose|j: int|
                                0 <= j < self.satisfied@.len() && self.satisfied@[j]@ == x;
                            if j < s0.len() {
                                assert(s0[j]@ == x);
                            }
                        }
                    }
                    assert(names_of(sub1) =~= names_of(sub).insert(c@)) by {
                        assert forall|x: Seq<char>| names_of(sub).insert(c@).contains(x) implies names_of(
                            sub1,
                        ).contains(x) by {
                            if x == c@ {
                                assert(sub1[k as int]@ == x);
                            } else {
                                let j = choose|j: int| 0 <= j < sub.len() && sub[j]@ == x;
                                assert(sub1[j]@ == x);
                            }
                        }
                        assert forall|x: Seq<char>| names_of(sub1).contains(x) implies names_of(
                            sub,
                        ).insert(c@).contains(x) by {
                            let j = choose|j: int| 0 <= j < sub1.len() && sub1[j]@ == x;
                            if j < k {
                                assert(sub[j]@ == x);
                            }
                        }
                    }
                    k = k + 1;
                }
                assert(self.tasks@[i as int].satisfies@.subrange(0, n as int)
                    =~= self.tasks@[i as int].satisfies@);
                assert(0 <= i < old(self).tasks_spec().len() && old(self).tasks_spec()[i as int].name@
                    == task.name@ && self.completed_spec() == old(self).completed_spec().update(
                    i as int,
                    true,
                ) && self.satisfied_spec() == old(self).satisfied_spec().union(
                    names_of(old(self).tasks_spec()[i as int].satisfies@),
                ));
                Ok(())
            },
        }
    }

    /// Whether every condition that task `i` requires holds.
    fn requirements_hold(&self, i: usize) -> (r: bool)
        requires
            i < self.tasks_spec().len(),
        ensures
            r == requires_met(self.tasks_spec()[i as int], self.satisfied_spec()),
    {
        let t = &self.tasks[i];
        let mut k: usize = 0;
        while k < t.requires.len()
            invariant
                k <= t.requires.len(),
                *t == self.tasks@[i as int],
                forall|j: int| 0 <= j < k ==> names_of(self.satisfied@).contains(#[trigger] t.requires@[j]@),
            decreases t.requires.len() - k,
        {
            if !contains_name(&self.satisfied, &t.requires[k]) {
                return false;
            }
            k = k + 1;
        }
        true
    }

    /// Rebuilds the queue from scratch: afterwards it holds exactly the tasks that have
    /// not completed and whose requirements hold, in configuration order.
    pub fn reset(&mut self)
        requires
            old(self).completed_spec().len() == old(self).tasks_spec().len(),
        ensures
            final(self).wf(),
            final(self).queue_is_ready_set(),
            final(self).id_spec() == old(self).id_spec(),
            final(self).tasks_spec() == old(self).tasks_spec(),
            final(self).completed_spec() == old(self).completed_spec(),
            final(self).satisfied_spec() == old(self).satisfied_spec(),
    {
        self.runnable_tasks.clear();
        let mut i: usize = 0;
        while i < self.tasks.len()
            invariant
                i <= self.tasks.len(),
                self.completed_tasks@.len() == self.tasks@.len(),
                self.id == old(self).id,
                self.tasks@ == old(self).tasks@,
                self.completed_tasks@ == old(self).completed_tasks@,
                self.satisfied@ == old(self).satisfied@,
                forall|k: int| 0 <= k < self.runnable_tasks@.len() ==> #[trigger] self.runnable_tasks@[k] < i,
                forall|a: int, b: int|
                    0 <= a < b < self.runnable_tasks@.len() ==> #[trigger] self.runnable_tasks@[a]
                        < #[trigger] self.runnable_tasks@[b],
                forall|k: int|
                    0 <= k < self.runnable_tasks@.len() ==> self.ready(#[trigger] self.runnable_tasks@[k] as int),
                forall|j: int| 0 <= j < i && #[trigger] self.ready(j) ==> self.runnable_tasks@.contains(j as usize),
            decreases self.tasks.len() - i,
        {
            if !self.completed_tasks[i] && self.requirements_hold(i) {
                let ghost before = self.runnable_tasks@;
                let ghost s0 = *self;
                self.runnable_tasks.push(i);
                assert forall|j: int| 0 <= j < i && #[trigger] self.ready(j) implies self.runnable_tasks@.contains(
                    j as usize,
                ) by {
                    assert(s0.ready(j));
                    let k = choose|k: int| 0 <= k < before.len() && before[k] == j as usize;
                    assert(self.runnable_tasks@[k] == j as usize);
                }
                assert(self.runnable_tasks@[before.len() as int] == i);
            }
            i = i + 1;
        }
    }
}

/// Offers one task from each listed unit: for each position in `unutilised_cpus`, the
/// next task of that unit's queue (see `CPU::get_task`), paired with the unit's position.
/// Units whose queue is empty give `None`.
pub fn get_next_tasks(unutilised_cpus: &Vec<usize>, cpus: &mut Vec<CPU>) -> (r: Vec<(usize, Option<usize>)>)
    requires
        forall|k: int| 0 <= k < unutilised_cpus.len() ==> #[trigger] unutilised_cpus[k] < old(cpus).len(),
        forall|a: int, b: int|
            0 <= a < b < unutilised_cpus.len() ==> #[trigger] unutilised_cpus[a] != #[trigger] unutilised_cpus[b],
        forall|u: int| 0 <= u < old(cpus).len() ==> #[trigger] old(cpus)[u].wf(),
    ensures
        final(cpus).len() == old(cpus).len(),
        r.len() == unutilised_cpus.len(),
        forall|u: int| 0 <= u < final(cpus).len() ==> #[trigger] final(cpus)[u].wf(),
        forall|k: int| 0 <= k < r.len() ==> (#[trigger] r[k]).0 == unutilised_cpus[k],
        forall|u: int|
            0 <= u < final(cpus).len() && !unutilised_cpus@.contains(u as usize) ==> #[trigger] final(cpus)[u]
                == old(cpus)[u],
        forall|k: int|
            0 <= k < r.len() ==> {
                let u = unutilised_cpus[k] as int;
                let c0 = old(cpus)[u];
                let c1 = final(cpus)[u];
                &&& c1.id_spec() == c0.id_spec()
                &&& c1.tasks_spec() == c0.tasks_spec()
                &&& c1.completed_spec() == c0.completed_spec()
                &&& c1.satisfied_spec() == c0.satisfied_spec()
                &&& (c0.runnable_spec().len() == 0 <==> (#[trigger] r[k]).1 is None)
                &&& r[k].1 is None ==> c1.runnable_spec() == c0.runnable_spec()
                &&& r[k].1 matches Some(t) ==> exists|p: int|
                    0 <= p < c0.runnable_spec().len() && c0.runnable_spec()[p] == t
                        && c1.runnable_spec() == c0.runnable_spec().remove(p)
                        && (forall|q: int|
                        0 <= q < c0.runnable_spec().len() ==> c0.tasks_spec()[c0.runnable_spec()[q] as int].cycles
                            <= c0.tasks_spec()[t as int].cycles)
                        && (forall|q: int|
                        0 <= q < p ==> c0.tasks_spec()[c0.runnable_spec()[q] as int].cycles
                            < c0.tasks_spec()[t as int].cycles)
            },
{
    let mut r: Vec<(usize, Option<usize>)> = Vec::new();
    let mut k: usize = 0;
    while k < unutilised_cpus.len()
        invariant
            k <= unutilised_cpus.len(),
            r.len() == k,
            cpus.len() == old(cpus).len(),
            forall|j: int| 0 <= j < unutilised_cpus.len() ==> #[trigger] unutilised_cpus[j] < old(cpus).len(),
            forall|a: int, b: int|
                0 <= a < b < unutilised_cpus.len() ==> #[trigger] unutilised_cpus[a] != #[trigger] unutilised_cpus[b],
            forall|u: int| 0 <= u < cpus.len() ==> #[trigger] cpus[u].wf(),
            forall|j: int| 0 <= j < k ==> (#[trigger] r[j]).0 == unutilised_cpus[j],
            forall|u: int|
                0 <= u < cpus.len() && !unutilised_cpus@.subrange(0, k as int).contains(u as usize)
                    ==> #[trigger] cpus[u] == old(cpus)[u],
            forall|j: int|
                0 <= j < k ==> {
                    let u = unutilised_cpus[j] as int;
                    let c0 = old(cpus)[u];
                    let c1 = cpus[u];
                    &&& c1.id_spec() == c0.id_spec()
                    &&& c1.tasks_spec() == c0.tasks_spec()
                    &&& c1.completed_spec() == c0.completed_spec()
                    &&& c1.satisfied_spec() == c0.satisfied_spec()
                    &&& (c0.runnable_spec().len() == 0 <==> (#[trigger] r[j]).1 is None)
                    &&& r[j].1 is None ==> c1.runnable_spec() == c0.runnable_spec()
                    &&& r[j].1 matches Some(t) ==> exists|p: int|
                        0 <= p < c0.runnable_spec().len() && c0.runnable_spec()[p] == t
                            && c1.runnable_spec() == c0.runnable_spec().remove(p)
                            && (forall|q: int|
                            0 <= q < c0.runnable_spec().len() ==> c0.tasks_spec()[c0.runnable_spec()[q] as int].cycles
                                <= c0.tasks_spec()[t as int].cycles)
                            && (forall|q: int|
                            0 <= q < p ==> c0.tasks_spec()[c0.runnable_spec()[q] as int].cycles
                                < c0.tasks_spec()[t as int].cycles)
                },
        decreases unutilised_cpus.len() - k,
    {
        let u = unutilised_cpus[k];
        let ghost prev = cpus@;
        let mut cpu = cpus.remove(u);
        let t = cpu.get_task();
        cpus.insert(u, cpu);
        r.push((u, t));
        proof {
            assert forall|x: int| 0 <= x < cpus.len() && x != u implies #[trigger] cpus[x] == prev[x] by {}
            assert forall|j: int| 0 <= j < k implies unutilised_cpus[j] != u by {
                assert(unutilised_cpus[j] != unutilised_cpus[k as int]);
            }
            assert forall|x: int|
                0 <= x < cpus.len() && !unutilised_cpus@.subrange(0, k + 1).contains(x as usize) implies #[trigger] cpus[x]
                == old(cpus)[x] by {
                assert(unutilised_cpus@.subrange(0, k + 1)[k as int] == u);
                if unutilised_cpus@.subrange(0, k as int).contains(x as usize) {
                    let j = choose|j: int|
                        0 <= j < k && unutilised_cpus@.subrange(0, k as int)[j] == x as usize;
                    assert(unutilised_cpus@.subrange(0, k + 1)[j] == x as usize);
                }
            }
            assert(r[k as int].0 == u);
        }
        k = k + 1;
    }
    assert(unutilised_cpus@.subrange(0, k as int) =~= unutilised_cpus@);
    r
}

} // verus!
