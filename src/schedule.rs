use vstd::prelude::*;
use vstd::set_lib::{lemma_int_range, lemma_len_subset, set_int_range};

use crate::bitmap::BitMap;
use crate::codewriter::{calls, gap, gaps_ok, lemma_calls_append, lemma_gaps_append, CodeTask, CodeWriter, FunctionCall};
use crate::conf::{names_of, names_unique, requires_met, same_task, Conf, Task};
use crate::cpu::{get_next_tasks, CPU};
use crate::scheduler::{
    acquire, compatible, feasible, free_of, lemma_weight_only, lemma_weight_subset, lemma_weight_zero, prefers, task_schedule,
    weight, Candidate,
};

verus! {

/// Why a configuration cannot be scheduled.
#[derive(Debug, Clone)]
pub enum ScheduleError {
    /// The resource registry has more entries than a `BitMap` has slots.
    TooManySensors,
    /// A task uses a resource that the registry does not list.
    UnknownSensor { unit: u32, task: String, sensor: String },
    /// Two tasks of one unit share a name.
    DuplicateTask { unit: u32, task: String },
    /// A task never became runnable: some condition it requires never held.
    Unreachable { unit: u32, task: String },
    /// A unit was told that a task it does not have completed.
    UnknownTask { unit: u32, task: String },
}

/// The sum of the integers in `s`.
pub open spec fn sum(s: Seq<int>) -> int
    decreases s.len(),
{
    if s.len() == 0 {
        0
    } else {
        sum(s.drop_last()) + s.last()
    }
}

/// Sums keep a pointwise order, and a strict step somewhere makes it strict.
pub proof fn lemma_sum_le(a: Seq<int>, b: Seq<int>)
    requires
        a.len() == b.len(),
        forall|i: int| 0 <= i < a.len() ==> #[trigger] a[i] <= b[i],
    ensures
        sum(a) <= sum(b),
        (exists|j: int| 0 <= j < a.len() && a[j] < b[j]) ==> sum(a) < sum(b),
    decreases a.len(),
{
    if a.len() > 0 {
        lemma_sum_le(a.drop_last(), b.drop_last());
        if exists|j: int| 0 <= j < a.len() && a[j] < b[j] {
            let j = choose|j: int| 0 <= j < a.len() && a[j] < b[j];
            if j < a.len() - 1 {
                assert(a.drop_last()[j] < b.drop_last()[j]);
            }
        }
    }
}

/// Changing one entry changes the sum by the difference.
pub proof fn lemma_sum_update(a: Seq<int>, j: int, v: int)
    requires
        0 <= j < a.len(),
    ensures
        sum(a.update(j, v)) == sum(a) - a[j] + v,
    decreases a.len(),
{
    let b = a.update(j, v);
    if j < a.len() - 1 {
        assert(b.drop_last() =~= a.drop_last().update(j, v));
        lemma_sum_update(a.drop_last(), j, v);
    } else {
        assert(b.drop_last() =~= a.drop_last());
    }
}

/// A sequence of zeros sums to zero.
pub proof fn lemma_sum_zero(n: nat)
    ensures
        sum(Seq::new(n, |i: int| 0int)) == 0,
    decreases n,
{
    if n > 0 {
        assert(Seq::new(n, |i: int| 0int).drop_last() =~= Seq::new((n - 1) as nat, |i: int| 0int));
        lemma_sum_zero((n - 1) as nat);
    }
}

/// A sequence of distinct integers in `[0, n)` has at most `n` entries.
pub proof fn lemma_distinct_in_range_len(s: Seq<int>, n: int)
    requires
        0 <= n,
        s.no_duplicates(),
        forall|k: int| 0 <= k < s.len() ==> 0 <= #[trigger] s[k] < n,
    ensures
        s.len() <= n,
{
    s.unique_seq_to_set();
    lemma_int_range(0, n);
    assert(s.to_set().subset_of(set_int_range(0, n)));
    lemma_len_subset(s.to_set(), set_int_range(0, n));
}

/// Number of tasks of each unit of `topology`.
pub open spec fn task_counts(topology: Seq<(u32, Conf)>) -> Seq<int> {
    Seq::new(topology.len(), |u: int| topology[u].1.tasks@.len() as int)
}

/// Every resource that a task of `topology` uses is listed in `sensors`.
pub open spec fn all_known(topology: Seq<(u32, Conf)>, sensors: Seq<String>) -> bool {
    forall|u: int, t: int, k: int|
        0 <= u < topology.len() && 0 <= t < topology[u].1.tasks@.len() && 0 <= k
            < topology[u].1.tasks@[t].args@.len() ==> names_of(sensors).contains(
            #[trigger] topology[u].1.tasks@[t].args@[k]@,
        )
}

/// Task `task` of unit `unit` uses the resource `sensor`, which `sensors` does not list.
pub open spec fn unknown_named(topology: Seq<(u32, Conf)>, sensors: Seq<String>, unit: u32, task: Seq<char>, sensor: Seq<char>) -> bool {
    exists|u: int, t: int, k: int|
        0 <= u < topology.len() && 0 <= t < topology[u].1.tasks@.len() && 0 <= k < topology[u].1.tasks@[t].args@.len()
            && unit == topology[u].0 && task == topology[u].1.tasks@[t].name@ && sensor
            == #[trigger] topology[u].1.tasks@[t].args@[k]@ && !names_of(sensors).contains(sensor)
}

/// Task `task` of unit `unit` requires a condition that can never come to hold on it.
pub open spec fn unreachable_named(topology: Seq<(u32, Conf)>, unit: u32, task: Seq<char>) -> bool {
    exists|u: int, t: int|
        0 <= u < topology.len() && 0 <= t < topology[u].1.tasks@.len() && unit == topology[u].0 && task
            == (#[trigger] topology[u].1.tasks@[t]).name@ && !requires_met(
            topology[u].1.tasks@[t],
            reachable(topology[u].1.tasks@, names_of(topology[u].1.initial@)),
        )
}

/// Within each unit of `topology`, task names are distinct.
pub open spec fn all_unique(topology: Seq<(u32, Conf)>) -> bool {
    forall|u: int| 0 <= u < topology.len() ==> names_unique(#[trigger] topology[u].1.tasks@)
}

/// `slot` is the first entry of `sensors` that names `name`.
pub open spec fn first_slot(sensors: Seq<String>, name: Seq<char>, slot: int) -> bool {
    &&& 0 <= slot < sensors.len()
    &&& sensors[slot]@ == name
    &&& forall|j: int| 0 <= j < slot ==> #[trigger] sensors[j]@ != name
}

/// The first slot of `sensors` that names `name`, if any.
fn sensor_slot(sensors: &Vec<String>, name: &String) -> (r: Option<u8>)
    requires
        sensors.len() <= 128,
    ensures
        r matches Some(s) ==> first_slot(sensors@, name@, s as int),
        r is None ==> !names_of(sensors@).contains(name@),
{
    let mut j: usize = 0;
    while j < sensors.len()
        invariant
            j <= sensors.len() <= 128,
            forall|i: int| 0 <= i < j ==> #[trigger] sensors@[i]@ != name@,
        decreases sensors.len() - j,
    {
        if sensors[j] == *name {
            return Some(j as u8);
        }
        j = j + 1;
    }
    None
}

/// The slots of the resources `args` names, or the first name that `sensors` lacks.
fn resolve(sensors: &Vec<String>, args: &Vec<String>) -> (r: Result<Vec<u8>, usize>)
    requires
        sensors.len() <= 128,
    ensures
        r matches Ok(v) ==> v@.len() == args@.len() && forall|k: int|
            0 <= k < v@.len() ==> #[trigger] v@[k] < 128 && first_slot(sensors@, args@[k]@, v@[k] as int),
        r matches Err(k) ==> k < args@.len() && !names_of(sensors@).contains(args@[k as int]@),
        r is Ok <==> forall|k: int| 0 <= k < args@.len() ==> names_of(sensors@).contains(#[trigger] args@[k]@),
{
    let mut v: Vec<u8> = Vec::new();
    let mut k: usize = 0;
    while k < args.len()
        invariant
            sensors.len() <= 128,
            k <= args.len(),
            v@.len() == k,
            forall|i: int|
                0 <= i < k ==> #[trigger] v@[i] < 128 && first_slot(sensors@, args@[i]@, v@[i] as int),
        decreases args.len() - k,
    {
        match sensor_slot(sensors, &args[k]) {
            Some(s) => {
                v.push(s);
            },
            None => {
                return Err(k);
            },
        }
        k = k + 1;
    }
    assert forall|i: int| 0 <= i < args@.len() implies names_of(sensors@).contains(#[trigger] args@[i]@) by {
        assert(sensors@[v@[i] as int]@ == args@[i]@);
    }
    Ok(v)
}

/// Position of a task that shares its name with an earlier task, if any.
fn find_duplicate(tasks: &Vec<Task>) -> (r: Option<usize>)
    ensures
        r is None <==> names_unique(tasks@),
        r matches Some(t) ==> t < tasks@.len(),
{
    let mut i: usize = 0;
    while i < tasks.len()
        invariant
            i <= tasks.len(),
            forall|a: int, b: int| 0 <= a < i && 0 <= b < i && a != b ==> #[trigger] tasks@[a].name@ != #[trigger] tasks@[b].name@,
        decreases tasks.len() - i,
    {
        let mut j: usize = 0;
        while j < i
            invariant
                i < tasks.len(),
                j <= i,
                forall|b: int| 0 <= b < j ==> #[trigger] tasks@[b].name@ != tasks@[i as int].name@,
            decreases i - j,
        {
            if tasks[j].name == tasks[i].name {
                return Some(i);
            }
            j = j + 1;
        }
        i = i + 1;
    }
    None
}

/// Tasks equal to those of `tasks`, one for one.
fn duplicate_tasks(tasks: &Vec<Task>) -> (r: Vec<Task>)
    ensures
        r@.len() == tasks@.len(),
        forall|t: int| 0 <= t < r@.len() ==> same_task(#[trigger] r@[t], tasks@[t]),
{
    let mut r: Vec<Task> = Vec::new();
    let mut t: usize = 0;
    while t < tasks.len()
        invariant
            t <= tasks.len(),
            r@.len() == t,
            forall|i: int| 0 <= i < t ==> same_task(#[trigger] r@[i], tasks@[i]),
        decreases tasks.len() - t,
    {
        r.push(tasks[t].duplicate());
        t = t + 1;
    }
    r
}

/// The queued task that `c` offers next: the one with the most cycles, the earliest
/// queued among equals.
pub open spec fn best_queued(c: CPU, t: int) -> bool {
    exists|p: int|
        0 <= p < c.runnable_spec().len() && c.runnable_spec()[p] == t && (forall|q: int|
            0 <= q < c.runnable_spec().len() ==> c.tasks_spec()[c.runnable_spec()[q] as int].cycles
                <= c.tasks_spec()[t].cycles) && (forall|q: int|
            0 <= q < p ==> c.tasks_spec()[c.runnable_spec()[q] as int].cycles < c.tasks_spec()[t].cycles)
}

/// How one round of selection went from `s0` to `s1`: `us` are the units that offered a
/// task (those that ran nothing and had a task queued), in increasing order; `ts` are
/// the tasks they offered; `cs` are those tasks' resources and weights, in that order.
/// The units whose task started form the selection that `task_schedule` returns for
/// `cs` beside the resources held in `s0`: conflict-free, of the greatest weight, and
/// taking the candidate at the first position where equally heavy selections differ.
pub open spec fn offered_selection(s0: Simulation, s1: Simulation, us: Seq<int>, ts: Seq<int>, cs: Seq<Candidate>) -> bool {
    let n = s0.cpus_spec().len();
    let m = Seq::new(us.len(), |j: int| s1.running_spec()[us[j]] is Some);
    &&& us.len() == ts.len() == cs.len()
    &&& forall|a: int, b: int| 0 <= a < b < us.len() ==> #[trigger] us[a] < #[trigger] us[b]
    &&& forall|u: int|
        0 <= u < n ==> (#[trigger] us.contains(u) <==> (s0.running_spec()[u] is None
            && s0.cpus_spec()[u].runnable_spec().len() > 0))
    &&& forall|j: int|
        0 <= j < us.len() ==> {
            let u = #[trigger] us[j];
            &&& 0 <= u < n
            &&& best_queued(s0.cpus_spec()[u], ts[j])
            &&& cs[j].0@ == s0.slots_spec(u, ts[j])
            &&& cs[j].1 == s0.weights_spec()[u][ts[j]]
            &&& (s1.running_spec()[u] is Some ==> s1.running_spec()[u] == Some(ts[j] as usize))
        }
    &&& feasible(cs, m, 0, s0.held_spec())
    &&& forall|mm: Seq<bool>| feasible(cs, mm, 0, s0.held_spec()) ==> weight(cs, mm, 0) <= weight(cs, m, 0)
    &&& forall|mm: Seq<bool>|
        feasible(cs, mm, 0, s0.held_spec()) && weight(cs, mm, 0) == weight(cs, m, 0) ==> prefers(m, mm, 0)
}

/// How one completion phase went from `s0` to `s1`, where the running tasks with the
/// fewest cycles, `c`, complete: the clock moves on by `c`; exactly the running tasks of
/// `c` cycles stop; the others keep running.
pub open spec fn finishing(s0: Simulation, s1: Simulation, c: u16) -> bool {
    let n = s0.running_spec().len();
    &&& s1.time_spec() == s0.time_spec() + c
    &&& s1.running_spec().len() == n
    &&& exists|u: int| 0 <= u < n && #[trigger] s0.running_spec()[u] is Some && s0.cycles_of(u) == c
    &&& forall|v: int| 0 <= v < n && #[trigger] s0.running_spec()[v] is Some ==> c <= s0.cycles_of(v)
    &&& forall|v: int|
        0 <= v < n && s0.running_spec()[v] is Some ==> (#[trigger] s1.running_spec()[v] is None <==> s0.cycles_of(v)
            == c)
    &&& forall|v: int|
        0 <= v < n && s0.running_spec()[v] is Some && s0.cycles_of(v) != c ==> #[trigger] s1.running_spec()[v]
            == s0.running_spec()[v]
    &&& forall|v: int| 0 <= v < n && s0.running_spec()[v] is None ==> #[trigger] s1.running_spec()[v] is None
}

/// A starvation weight after one more lost round.
pub open spec fn bumped(w: u64) -> u64 {
    if w < u64::MAX {
        (w + 1) as u64
    } else {
        w
    }
}

/// Rebuilds every unit's queue (see `CPU::reset`).
fn reset_all(cpus: &mut Vec<CPU>)
    requires
        forall|u: int| 0 <= u < old(cpus).len() ==> (#[trigger] old(cpus)[u]).wf(),
    ensures
        final(cpus).len() == old(cpus).len(),
        forall|u: int|
            0 <= u < final(cpus).len() ==> {
                let c = #[trigger] final(cpus)[u];
                &&& c.wf()
                &&& c.queue_is_ready_set()
                &&& c.id_spec() == old(cpus)[u].id_spec()
                &&& c.tasks_spec() == old(cpus)[u].tasks_spec()
                &&& c.completed_spec() == old(cpus)[u].completed_spec()
                &&& c.satisfied_spec() == old(cpus)[u].satisfied_spec()
            },
{
    let mut u: usize = 0;
    while u < cpus.len()
        invariant
            u <= cpus.len() == old(cpus).len(),
            forall|v: int|
                0 <= v < cpus.len() ==> {
                    let c = #[trigger] cpus[v];
                    &&& c.wf()
                    &&& v < u ==> c.queue_is_ready_set()
                    &&& c.id_spec() == old(cpus)[v].id_spec()
                    &&& c.tasks_spec() == old(cpus)[v].tasks_spec()
                    &&& c.completed_spec() == old(cpus)[v].completed_spec()
                    &&& c.satisfied_spec() == old(cpus)[v].satisfied_spec()
                },
        decreases old(cpus).len() - u,
    {
        let mut c = cpus.remove(u);
        proof {
            c.lemma_wf();
        }
        c.reset();
        cpus.insert(u, c);
        u = u + 1;
    }
}

/// Sets the weight of task `t` of unit `u`.
fn set_weight(weights: &mut Vec<Vec<u64>>, u: usize, t: usize, w: u64)
    requires
        u < old(weights).len(),
        t < old(weights)[u as int].len(),
    ensures
        final(weights).len() == old(weights).len(),
        forall|x: int| 0 <= x < final(weights).len() && x != u ==> #[trigger] final(weights)[x] == old(weights)[x],
        final(weights)[u as int]@ == old(weights)[u as int]@.update(t as int, w),
{
    let mut row = weights.remove(u);
    row.set(t, w);
    weights.insert(u, row);
}

/// `used` with every slot in `res` marked as free.
fn release(res: &Vec<u8>, used: BitMap) -> (r: BitMap)
    requires
        forall|k: int| 0 <= k < res.len() ==> #[trigger] res[k] < 128,
    ensures
        forall|i: int|
            #[trigger] r@.contains(i) <==> (used@.contains(i) && !exists|k: int|
                0 <= k < res.len() && res@[k] as int == i),
{
    let mut r = used;
    let mut k: usize = 0;
    while k < res.len()
        invariant
            k <= res.len(),
            forall|i: int| 0 <= i < res.len() ==> #[trigger] res[i] < 128,
            forall|i: int|
                #[trigger] r@.contains(i) <==> (used@.contains(i) && !exists|j: int|
                    0 <= j < k && res@[j] as int == i),
        decreases res.len() - k,
    {
        let ghost before = r@;
        r.set(res[k], false);
        proof {
            assert forall|i: int| #[trigger] r@.contains(i) <==> (used@.contains(i) && !exists|j: int|
                0 <= j < k + 1 && res@[j] as int == i) by {
                if i == res@[k as int] as int {
                    assert(0 <= k < k + 1 && res@[k as int] as int == i);
                } else {
                    assert(r@.contains(i) == before.contains(i));
                    if exists|j: int| 0 <= j < k + 1 && res@[j] as int == i {
                        let j = choose|j: int| 0 <= j < k + 1 && res@[j] as int == i;
                        assert(j < k);
                    }
                }
            }
        }
        k = k + 1;
    }
    r
}

/// The state of a scheduling run: each unit's readiness, which task (if any) each unit
/// is running, the resources held, the starvation weights, the emitted sequences and
/// the simulated clock.
pub struct Simulation {
    ids: Vec<u32>,
    cpus: Vec<CPU>,
    slots: Vec<Vec<Vec<u8>>>,
    running: Vec<Option<usize>>,
    sensor_bitmap: BitMap,
    weights: Vec<Vec<u64>>,
    writers: Vec<CodeWriter>,
    time: u64,
    sensors: Ghost<Seq<String>>,
    initial: Ghost<Seq<Set<Seq<char>>>>,
    emitted: Ghost<Seq<Seq<int>>>,
    total: Ghost<int>,
}

impl Simulation {
    /// Each unit's readiness state.
    pub closed spec fn cpus_spec(&self) -> Seq<CPU> {
        self.cpus@
    }

    /// The resource slots of task `t` of unit `u`.
    pub closed spec fn slots_spec(&self, u: int, t: int) -> Seq<u8> {
        self.slots@[u]@[t]@
    }

    /// For each unit, the task it is running, if any.
    pub closed spec fn running_spec(&self) -> Seq<Option<usize>> {
        self.running@
    }

    /// The slots currently held.
    pub closed spec fn held_spec(&self) -> Set<int> {
        self.sensor_bitmap@
    }

    /// The starvation weight of each task of each unit.
    pub closed spec fn weights_spec(&self) -> Seq<Seq<u64>> {
        Seq::new(self.weights@.len(), |u: int| self.weights@[u]@)
    }

    /// Each unit's emitted sequence so far.
    pub closed spec fn writers_spec(&self) -> Seq<CodeWriter> {
        self.writers@
    }

    /// For each unit, the positions of its tasks in the order they were emitted.
    pub closed spec fn emitted_spec(&self) -> Seq<Seq<int>> {
        self.emitted@
    }

    /// For each unit, the conditions that held on it before any task ran.
    pub closed spec fn initial_spec(&self) -> Seq<Set<Seq<char>>> {
        self.initial@
    }

    /// Some task emitted on unit `u` before position `before` makes condition `c` hold.
    pub open spec fn satisfied_before(&self, u: int, c: Seq<char>, before: int) -> bool {
        exists|k: int|
            0 <= k < before && names_of(
                self.cpus_spec()[u].tasks_spec()[#[trigger] self.emitted_spec()[u][k]].satisfies@,
            ).contains(c)
    }

    /// Every condition that holds on a unit held initially or was made to hold by a task
    /// emitted on it; and every condition that a running task requires is one of these.
    pub open spec fn conditions_tracked(&self) -> bool {
        &&& self.initial_spec().len() == self.cpus_spec().len()
        &&& forall|u: int, c: Seq<char>|
            0 <= u < self.cpus_spec().len() && #[trigger] self.cpus_spec()[u].satisfied_spec().contains(c)
                ==> self.initial_spec()[u].contains(c) || self.satisfied_before(u, c, self.emitted_spec()[u].len() as int)
        &&& forall|u: int, j: int|
            0 <= u < self.cpus_spec().len() && self.running_spec()[u] is Some && 0 <= j
                < self.cpus_spec()[u].tasks_spec()[self.running_spec()[u]->0 as int].requires@.len() ==> {
                let c = #[trigger] self.cpus_spec()[u].tasks_spec()[self.running_spec()[u]->0 as int].requires@[j]@;
                self.initial_spec()[u].contains(c) || self.satisfied_before(u, c, self.emitted_spec()[u].len() as int)
            }
    }

    /// In each unit's emitted sequence, every condition that a task requires and that did
    /// not hold initially is made to hold by a task emitted before it on that unit: as
    /// a unit runs its sequence one task after another, the task starts no earlier than
    /// that task completes.
    pub open spec fn dependency_sound(&self) -> bool {
        forall|u: int, k: int, j: int|
            0 <= u < self.cpus_spec().len() && 0 <= k < self.emitted_spec()[u].len() && 0 <= j
                < self.cpus_spec()[u].tasks_spec()[self.emitted_spec()[u][k]].requires@.len() ==> {
                let c = #[trigger] self.cpus_spec()[u].tasks_spec()[self.emitted_spec()[u][k]].requires@[j]@;
                self.initial_spec()[u].contains(c) || self.satisfied_before(u, c, k)
            }
    }

    /// The simulated clock.
    pub closed spec fn time_spec(&self) -> u64 {
        self.time
    }

    /// Tasks emitted so far, over all units.
    pub closed spec fn done(&self) -> int {
        sum(Seq::new(self.emitted@.len(), |u: int| self.emitted@[u].len() as int))
    }

    /// Tasks queued for offering, over all units.
    pub closed spec fn queued(&self) -> int {
        sum(Seq::new(self.cpus@.len(), |u: int| self.cpus@[u].runnable_spec().len() as int))
    }

    /// Tasks of the configuration, over all units.
    pub closed spec fn total_spec(&self) -> int {
        self.total@
    }

    /// Every initial condition of a unit holds on it, and so does every condition that a
    /// completed task of it satisfies.
    pub open spec fn satisfied_complete(&self) -> bool {
        &&& forall|u: int, c: Seq<char>|
            0 <= u < self.cpus_spec().len() && #[trigger] self.initial_spec()[u].contains(c)
                ==> self.cpus_spec()[u].satisfied_spec().contains(c)
        &&& forall|u: int, t: int, c: Seq<char>|
            0 <= u < self.cpus_spec().len() && 0 <= t < self.cpus_spec()[u].tasks_spec().len()
                && #[trigger] self.cpus_spec()[u].completed_spec()[t] && #[trigger] names_of(
                self.cpus_spec()[u].tasks_spec()[t].satisfies@,
            ).contains(c) ==> self.cpus_spec()[u].satisfied_spec().contains(c)
    }

    /// The cycles of the task that unit `u` runs.
    pub open spec fn cycles_of(&self, u: int) -> u16 {
        self.cpus_spec()[u].tasks_spec()[self.running_spec()[u]->0 as int].cycles
    }

    /// The unit identifiers, in configuration order.
    pub closed spec fn ids_spec(&self) -> Seq<u32> {
        self.ids@
    }

    /// No two running tasks hold a resource in common.
    pub open spec fn mutually_exclusive(&self) -> bool {
        forall|u1: int, u2: int|
            0 <= u1 < self.running_spec().len() && 0 <= u2 < self.running_spec().len() && u1 != u2
                && #[trigger] self.running_spec()[u1] is Some && #[trigger] self.running_spec()[u2] is Some
                ==> compatible(
                self.slots_spec(u1, self.running_spec()[u1]->0 as int),
                self.slots_spec(u2, self.running_spec()[u2]->0 as int),
            )
    }

    /// Each unit's emitted sequence names distinct tasks of that unit, exactly the
    /// completed ones, and its task entries are those tasks in emission order.
    pub open spec fn emitted_consistent(&self) -> bool {
        &&& self.emitted_spec().len() == self.cpus_spec().len()
        &&& self.writers_spec().len() == self.cpus_spec().len()
        &&& forall|u: int| 0 <= u < self.cpus_spec().len() ==> {
            let e = #[trigger] self.emitted_spec()[u];
            let c = self.cpus_spec()[u];
            let fs = calls(self.writers_spec()[u].tasks@);
            &&& e.no_duplicates()
            &&& forall|k: int| 0 <= k < e.len() ==> 0 <= #[trigger] e[k] < c.tasks_spec().len()
            &&& forall|t: int| 0 <= t < c.tasks_spec().len() ==> (c.completed_spec()[t] <==> e.contains(t))
            &&& fs.len() == e.len()
            &&& forall|k: int|
                0 <= k < fs.len() ==> {
                    let task = c.tasks_spec()[e[k]];
                    &&& (#[trigger] fs[k]).fn_identifier@ == task.name@
                    &&& fs[k].cycles == task.cycles
                    &&& fs[k].args@ == task.args@
                }
        }
    }

    /// Checks a configuration and sets up its run at time 0: no task has run, each unit
    /// starts with its own initial conditions and every starvation weight is 1.
    /// Fails when the registry has more than 128 entries, then when a task uses a
    /// resource that the registry lacks, then when two tasks of a unit share a name.
    /// The tasks must be few enough that the clock (a `u64`) can count the longest
    /// possible cycles of all of them.
    pub fn new(topology: &Vec<(u32, Conf)>, sensors: &Vec<String>) -> (r: Result<Simulation, ScheduleError>)
        requires
            65535 * sum(task_counts(topology@)) <= u64::MAX,
        ensures
            (r matches Err(ScheduleError::TooManySensors)) <==> sensors@.len() > 128,
            (r matches Err(ScheduleError::UnknownSensor { .. })) <==> (sensors@.len() <= 128 && !all_known(
                topology@,
                sensors@,
            )),
            (r matches Err(ScheduleError::DuplicateTask { .. })) <==> (sensors@.len() <= 128 && all_known(
                topology@,
                sensors@,
            ) && !all_unique(topology@)),
            r is Ok <==> (sensors@.len() <= 128 && all_known(topology@, sensors@) && all_unique(topology@)),
            r matches Err(ScheduleError::UnknownSensor { unit, task, sensor }) ==> unknown_named(
                topology@,
                sensors@,
                unit,
                task@,
                sensor@,
            ),
            r matches Ok(s) ==> {
                &&& s.inv()
                &&& s.cpus_spec().len() == topology@.len()
                &&& s.total_spec() == sum(task_counts(topology@))
                &&& s.done() == 0
                &&& s.time_spec() == 0
                &&& forall|u: int|
                    0 <= u < topology@.len() ==> {
                        let c = #[trigger] s.cpus_spec()[u];
                        &&& c.id_spec() == topology@[u].0
                        &&& c.tasks_spec().len() == topology@[u].1.tasks@.len()
                        &&& (forall|t: int|
                            0 <= t < c.tasks_spec().len() ==> same_task(
                                #[trigger] c.tasks_spec()[t],
                                topology@[u].1.tasks@[t],
                            ))
                        &&& c.satisfied_spec() == names_of(topology@[u].1.initial@)
                        &&& s.initial_spec()[u] == names_of(topology@[u].1.initial@)
                        &&& s.ids_spec()[u] == topology@[u].0
                        &&& c.queue_is_ready_set()
                        &&& s.running_spec()[u] is None
                        &&& s.emitted_spec()[u].len() == 0
                    }
            },
    {
        if sensors.len() > 128 {
            return Err(ScheduleError::TooManySensors);
        }
        let n = topology.len();
        let mut slots: Vec<Vec<Vec<u8>>> = Vec::new();
        let mut u: usize = 0;
        while u < n
            invariant
                n == topology@.len(),
                sensors@.len() <= 128,
                u <= n,
                slots@.len() == u,
                forall|v: int, t: int, k: int|
                    0 <= v < u && 0 <= t < topology@[v].1.tasks@.len() && 0 <= k
                        < topology@[v].1.tasks@[t].args@.len() ==> names_of(sensors@).contains(
                        #[trigger] topology@[v].1.tasks@[t].args@[k]@,
                    ),
                forall|v: int|
                    0 <= v < u ==> (#[trigger] slots@[v])@.len() == topology@[v].1.tasks@.len(),
                forall|v: int, t: int|
                    0 <= v < u && 0 <= t < topology@[v].1.tasks@.len() ==> (#[trigger] slots@[v]@[t])@.len()
                        == topology@[v].1.tasks@[t].args@.len(),
                forall|v: int, t: int, k: int|
                    0 <= v < u && 0 <= t < topology@[v].1.tasks@.len() && 0 <= k < slots@[v]@[t]@.len()
                        ==> #[trigger] slots@[v]@[t]@[k] < 128 && first_slot(
                        sensors@,
                        topology@[v].1.tasks@[t].args@[k]@,
                        slots@[v]@[t]@[k] as int,
                    ),
            decreases n - u,
        {
            let tasks = &topology[u].1.tasks;
            let mut unit_slots: Vec<Vec<u8>> = Vec::new();
            let mut t: usize = 0;
            while t < tasks.len()
                invariant
                    sensors@.len() <= 128,
                    u < n == topology@.len(),
                    *tasks == topology@[u as int].1.tasks,
                    t <= tasks@.len(),
                    unit_slots@.len() == t,
                    forall|j: int, k: int|
                        0 <= j < t && 0 <= k < tasks@[j].args@.len() ==> names_of(sensors@).contains(
                            #[trigger] tasks@[j].args@[k]@,
                        ),
                    forall|j: int| 0 <= j < t ==> (#[trigger] unit_slots@[j])@.len() == tasks@[j].args@.len(),
                    forall|j: int, k: int|
                        0 <= j < t && 0 <= k < unit_slots@[j]@.len() ==> #[trigger] unit_slots@[j]@[k] < 128
                            && first_slot(sensors@, tasks@[j].args@[k]@, unit_slots@[j]@[k] as int),
                decreases tasks@.len() - t,
            {
                match resolve(sensors, &tasks[t].args) {
                    Ok(v) => {
                        unit_slots.push(v);
                    },
                    Err(k) => {
                        assert(!all_known(topology@, sensors@)) by {
                            assert(!names_of(sensors@).contains(
                                topology@[u as int].1.tasks@[t as int].args@[k as int]@,
                            ));
                        }
                        assert(unknown_named(
                            topology@,
                            sensors@,
                            topology@[u as int].0,
                            tasks@[t as int].name@,
                            tasks@[t as int].args@[k as int]@,
                        )) by {
                            assert(0 <= u < topology@.len() && 0 <= t < topology@[u as int].1.tasks@.len() && 0 <= k
                                < topology@[u as int].1.tasks@[t as int].args@.len());
                        }
                        return Err(
                            ScheduleError::UnknownSensor {
                                unit: topology[u].0,
                                task: tasks[t].name.clone(),
                                sensor: tasks[t].args[k].clone(),
                            },
                        );
                    },
                }
                t = t + 1;
            }
            slots.push(unit_slots);
            u = u + 1;
        }
        let mut u: usize = 0;
        while u < n
            invariant
                n == topology@.len(),
                u <= n,
                sensors@.len() <= 128,
                all_known(topology@, sensors@),
                slots@.len() == n,
                forall|v: int|
                    0 <= v < n ==> (#[trigger] slots@[v])@.len() == topology@[v].1.tasks@.len(),
                forall|v: int, t: int|
                    0 <= v < n && 0 <= t < topology@[v].1.tasks@.len() ==> (#[trigger] slots@[v]@[t])@.len()
                        == topology@[v].1.tasks@[t].args@.len(),
                forall|v: int, t: int, k: int|
                    0 <= v < n && 0 <= t < topology@[v].1.tasks@.len() && 0 <= k < slots@[v]@[t]@.len()
                        ==> #[trigger] slots@[v]@[t]@[k] < 128 && first_slot(
                        sensors@,
                        topology@[v].1.tasks@[t].args@[k]@,
                        slots@[v]@[t]@[k] as int,
                    ),
                forall|v: int| 0 <= v < u ==> names_unique(#[trigger] topology@[v].1.tasks@),
            decreases n - u,
        {
            match find_duplicate(&topology[u].1.tasks) {
                Some(t) => {
                    return Err(
                        ScheduleError::DuplicateTask {
                            unit: topology[u].0,
                            task: topology[u].1.tasks[t].name.clone(),
                        },
                    );
                },
                None => {},
            }
            u = u + 1;
        }
        let mut ids: Vec<u32> = Vec::new();
        let mut cpus: Vec<CPU> = Vec::new();
        let mut running: Vec<Option<usize>> = Vec::new();
        let mut weights: Vec<Vec<u64>> = Vec::new();
        let mut writers: Vec<CodeWriter> = Vec::new();
        let mut emitted: Ghost<Seq<Seq<int>>> = Ghost(Seq::empty());
        let mut u: usize = 0;
        while u < n
            invariant
                n == topology@.len(),
                u <= n,
                slots@.len() == n,
                sensors@.len() <= 128,
                all_known(topology@, sensors@),
                all_unique(topology@),
                ids@.len() == u,
                cpus@.len() == u,
                running@.len() == u,
                weights@.len() == u,
                writers@.len() == u,
                emitted@.len() == u,
                forall|v: int| 0 <= v < u ==> (#[trigger] running@[v]) is None,
                forall|v: int|
                    0 <= v < n ==> (#[trigger] slots@[v])@.len() == topology@[v].1.tasks@.len(),
                forall|v: int, t: int|
                    0 <= v < n && 0 <= t < topology@[v].1.tasks@.len() ==> (#[trigger] slots@[v]@[t])@.len()
                        == topology@[v].1.tasks@[t].args@.len(),
                forall|v: int, t: int, k: int|
                    0 <= v < n && 0 <= t < topology@[v].1.tasks@.len() && 0 <= k < slots@[v]@[t]@.len()
                        ==> #[trigger] slots@[v]@[t]@[k] < 128 && first_slot(
                        sensors@,
                        topology@[v].1.tasks@[t].args@[k]@,
                        slots@[v]@[t]@[k] as int,
                    ),
                forall|v: int|
                    0 <= v < u ==> {
                        let c = #[trigger] cpus@[v];
                        &&& c.wf()
                        &&& c.queue_is_ready_set()
                        &&& c.id_spec() == topology@[v].0
                        &&& ids@[v] == topology@[v].0
                        &&& c.tasks_spec().len() == topology@[v].1.tasks@.len()
                        &&& (forall|t: int|
                            0 <= t < c.tasks_spec().len() ==> same_task(
                                #[trigger] c.tasks_spec()[t],
                                topology@[v].1.tasks@[t],
                            ))
                        &&& c.completed_spec() == Seq::new(c.tasks_spec().len(), |i: int| false)
                        &&& c.satisfied_spec() == names_of(topology@[v].1.initial@)
                        &&& running@[v] is None
                        &&& weights@[v]@.len() == c.tasks_spec().len()
                        &&& forall|x: int| 0 <= x < weights@[v]@.len() ==> weights@[v]@[x] == 1
                        &&& writers@[v].tasks@.len() == 0
                        &&& writers@[v].delayed_at is None
                        &&& emitted@[v].len() == 0
                    },
            decreases n - u,
        {
            let conf = &topology[u].1;
            let tasks = duplicate_tasks(&conf.tasks);
            let initial = conf.initial.clone();
            assert(initial@ =~= conf.initial@);
            let cpu = CPU::new(topology[u].0, tasks, initial);
            let mut w: Vec<u64> = Vec::new();
            let mut t: usize = 0;
            while t < conf.tasks.len()
                invariant
                    t <= conf.tasks@.len(),
                    w@.len() == t,
                    forall|x: int| 0 <= x < t ==> w@[x] == 1,
                decreases conf.tasks@.len() - t,
            {
                w.push(1);
                t = t + 1;
            }
            ids.push(topology[u].0);
            cpus.push(cpu);
            running.push(None);
            weights.push(w);
            writers.push(CodeWriter::new());
            proof {
                emitted@ = emitted@.push(Seq::empty());
            }
            u = u + 1;
        }
        let ghost total = sum(task_counts(topology@));
        let sim = Simulation {
            ids,
            cpus,
            slots,
            running,
            sensor_bitmap: BitMap::new(),
            weights,
            writers,
            time: 0,
            sensors: Ghost(sensors@),
            initial: Ghost(Seq::new(n as nat, |v: int| names_of(topology@[v].1.initial@))),
            emitted,
            total: Ghost(total),
        };
        proof {
            assert(Seq::new(n as nat, |v: int| sim.cpus@[v].tasks_spec().len() as int) =~= task_counts(
                topology@,
            ));
            let zeros = Seq::new(sim.emitted@.len(), |v: int| sim.emitted@[v].len() as int);
            assert(sum(zeros) == 0) by {
                assert forall|v: int| 0 <= v < n implies #[trigger] zeros[v] == 0int by {
                    assert(sim.cpus@[v].wf());
                }
                assert(zeros =~= Seq::new(n as nat, |v: int| 0int));
                lemma_sum_zero(n as nat);
            }
            assert forall|u: int| 0 <= u < n implies #[trigger] sim.unit_ok(u) by {
                let c = sim.cpus@[u];
                assert(names_unique(topology@[u].1.tasks@));
                assert forall|a: int, b: int|
                    0 <= a < c.tasks_spec().len() && 0 <= b < c.tasks_spec().len() && a != b implies #[trigger] c.tasks_spec()[a].name@
                    != #[trigger] c.tasks_spec()[b].name@ by {
                    assert(same_task(c.tasks_spec()[a], topology@[u].1.tasks@[a]));
                    assert(same_task(c.tasks_spec()[b], topology@[u].1.tasks@[b]));
                    assert(topology@[u].1.tasks@[a].name@ != topology@[u].1.tasks@[b].name@);
                }
                assert forall|t: int| 0 <= t < c.tasks_spec().len() implies #[trigger] sim.slots@[u]@[t]@.len()
                    == c.tasks_spec()[t].args@.len() by {
                    assert(same_task(c.tasks_spec()[t], topology@[u].1.tasks@[t]));
                }
                assert forall|t: int, k: int|
                    0 <= t < c.tasks_spec().len() && 0 <= k < sim.slots@[u]@[t]@.len() implies first_slot(
                    sim.sensors@,
                    c.tasks_spec()[t].args@[k]@,
                    #[trigger] sim.slots@[u]@[t]@[k] as int,
                ) && sim.slots@[u]@[t]@[k] < 128 by {
                    assert(same_task(c.tasks_spec()[t], topology@[u].1.tasks@[t]));
                }
                assert forall|k: int| 0 <= k < c.runnable_spec().len() implies c.ready(
                    #[trigger] c.runnable_spec()[k] as int,
                ) by {}
            }
            assert forall|i: int| !#[trigger] sim.sensor_bitmap@.contains(i) by {}
            assert(sim.emitted_consistent()) by {
                assert forall|u: int| 0 <= u < n implies {
                    let e = #[trigger] sim.emitted_spec()[u];
                    let c = sim.cpus_spec()[u];
                    let fs = calls(sim.writers_spec()[u].tasks@);
                    &&& e.no_duplicates()
                    &&& forall|k: int| 0 <= k < e.len() ==> 0 <= #[trigger] e[k] < c.tasks_spec().len()
                    &&& forall|t: int|
                        0 <= t < c.tasks_spec().len() ==> (c.completed_spec()[t] <==> e.contains(t))
                    &&& fs.len() == e.len()
                    &&& forall|k: int|
                        0 <= k < fs.len() ==> {
                            let task = c.tasks_spec()[e[k]];
                            &&& (#[trigger] fs[k]).fn_identifier@ == task.name@
                            &&& fs[k].cycles == task.cycles
                            &&& fs[k].args@ == task.args@
                        }
                } by {
                    let c = sim.cpus_spec()[u];
                    assert(sim.writers_spec()[u].tasks@.len() == 0);
                    assert forall|t: int| 0 <= t < c.tasks_spec().len() implies !c.completed_spec()[t] by {
                        assert(c.completed_spec()[t] == Seq::new(c.tasks_spec().len(), |i: int| false)[t]);
                    }
                }
            }
        }
        assert forall|u: int, t: int| 0 <= u < n && 0 <= t < sim.weights@[u]@.len() implies #[trigger] sim.weights@[u]@[t]
            >= 1 by {
            assert(sim.cpus@[u].wf());
        }
        assert forall|u: int| 0 <= u < n implies gaps_ok(#[trigger] sim.writers@[u].tasks@) by {
            assert(sim.cpus@[u].wf());
            assert(sim.writers@[u].tasks@.len() == 0);
        }
        assert(sim.conditions_tracked()) by {
            assert forall|u: int, c: Seq<char>|
                0 <= u < n && #[trigger] sim.cpus_spec()[u].satisfied_spec().contains(c) implies sim.initial_spec()[u].contains(c) by {
                assert(sim.cpus@[u].wf());
            }
        }
        assert(sim.dependency_sound()) by {
            assert forall|u: int| 0 <= u < n implies #[trigger] sim.emitted_spec()[u].len() == 0 by {
                assert(sim.cpus@[u].wf());
            }
        }
        assert(sim.inv());
        assert(sim.done() == 0);
        Ok(sim)
    }

    /// One round of the selection phase. Each unit that runs nothing offers the next task
    /// of its queue; when none is offered, every queue is rebuilt, each idle unit opens
    /// an idle gap, and `false` is returned. Otherwise the offered tasks, with their
    /// starvation weights, go to `task_schedule`: the chosen ones start (their resources
    /// are held, their weight goes back to 1) and every other offered task's weight
    /// grows by one; `true` is returned. No running task stops.
    pub fn select_round(&mut self) -> (r: bool)
        requires
            old(self).inv(),
        ensures
            final(self).inv(),
            final(self).cpus_spec().len() == old(self).cpus_spec().len(),
            final(self).total_spec() == old(self).total_spec(),
            final(self).time_spec() == old(self).time_spec(),
            final(self).emitted_spec() == old(self).emitted_spec(),
            final(self).done() == old(self).done(),
            final(self).initial_spec() == old(self).initial_spec(),
            final(self).ids_spec() == old(self).ids_spec(),
            forall|u: int|
                0 <= u < final(self).cpus_spec().len() ==> {
                    let c = #[trigger] final(self).cpus_spec()[u];
                    let c0 = old(self).cpus_spec()[u];
                    &&& c.id_spec() == c0.id_spec()
                    &&& c.tasks_spec() == c0.tasks_spec()
                    &&& c.completed_spec() == c0.completed_spec()
                    &&& c.satisfied_spec() == c0.satisfied_spec()
                    &&& old(self).running_spec()[u] is Some ==> final(self).running_spec()[u]
                        == old(self).running_spec()[u]
                    &&& !r ==> final(self).running_spec()[u] == old(self).running_spec()[u]
                    &&& !r ==> c.queue_is_ready_set()
                },
            r ==> final(self).queued() < old(self).queued(),
            r <==> exists|u: int|
                0 <= u < old(self).cpus_spec().len() && #[trigger] old(self).running_spec()[u] is None
                    && old(self).cpus_spec()[u].runnable_spec().len() > 0,
            r ==> exists|us: Seq<int>, ts: Seq<int>, cs: Seq<Candidate>| offered_selection(*old(self), *final(self), us, ts, cs),
            r && (forall|u: int| 0 <= u < old(self).cpus_spec().len() ==> #[trigger] old(self).running_spec()[u] is None)
                ==> exists|u: int| 0 <= u < old(self).cpus_spec().len() && #[trigger] final(self).running_spec()[u] is Some,
            !r ==> final(self).weights_spec() == old(self).weights_spec(),
            r ==> forall|u: int, t: int|
                0 <= u < old(self).cpus_spec().len() && 0 <= t < old(self).cpus_spec()[u].tasks_spec().len()
                    ==> if old(self).running_spec()[u] is None && best_queued(old(self).cpus_spec()[u], t) {
                    ||| (final(self).running_spec()[u] == Some(t as usize) && #[trigger] final(self).weights_spec()[u][t] == 1)
                    ||| (final(self).running_spec()[u] is None && final(self).weights_spec()[u][t]
                        == bumped(old(self).weights_spec()[u][t]))
                } else {
                    final(self).weights_spec()[u][t] == old(self).weights_spec()[u][t]
                },
            r ==> forall|u: int|
                0 <= u < old(self).cpus_spec().len() && old(self).running_spec()[u] is None
                    && #[trigger] final(self).running_spec()[u] is Some ==> best_queued(
                    old(self).cpus_spec()[u],
                    final(self).running_spec()[u]->0 as int,
                ),
    {
        let ghost s0 = *self;
        let n = self.cpus.len();
        let mut idle: Vec<usize> = Vec::new();
        let mut u: usize = 0;
        while u < n
            invariant
                n == self.cpus@.len() == self.running@.len(),
                u <= n,
                forall|j: int| 0 <= j < idle.len() ==> #[trigger] idle@[j] < u,
                forall|a: int, b: int| 0 <= a < b < idle.len() ==> #[trigger] idle@[a] < #[trigger] idle@[b],
                forall|j: int| 0 <= j < idle.len() ==> self.running@[#[trigger] idle@[j] as int] is None,
                forall|v: int| 0 <= v < u && self.running@[v] is None ==> #[trigger] idle@.contains(v as usize),
            decreases n - u,
        {
            if self.running[u].is_none() {
                let ghost before = idle@;
                idle.push(u);
                assert forall|v: int| 0 <= v < u + 1 && self.running@[v] is None implies #[trigger] idle@.contains(
                    v as usize,
                ) by {
                    if v < u {
                        assert(before.contains(v as usize));
                        let j = choose|j: int| 0 <= j < before.len() && before[j] == v as usize;
                        assert(idle@[j] == v as usize);
                    } else {
                        assert(idle@[before.len() as int] == v as usize);
                    }
                }
            }
            u = u + 1;
        }
        proof {
            assert forall|u: int| 0 <= u < n implies (#[trigger] s0.cpus@[u]).wf() by {}
        }
        let offered = get_next_tasks(&idle, &mut self.cpus);
        let ghost s1 = *self;
        let mut cu: Vec<usize> = Vec::new();
        let mut ct: Vec<usize> = Vec::new();
        let mut cands: Vec<Candidate> = Vec::new();
        let ghost mut pos: Seq<int> = Seq::new(n as nat, |v: int| -1int);
        let mut k: usize = 0;
        while k < offered.len()
            invariant
                *self == s1,
                s0.inv(),
                s1.slots == s0.slots,
                s1.weights == s0.weights,
                s1.running == s0.running,
                s1.initial == s0.initial,
                forall|v: int| 0 <= v < n && s0.running@[v] is None ==> #[trigger] idle@.contains(v as usize),
                n == s0.cpus@.len() == s1.cpus@.len(),
                offered.len() == idle.len(),
                k <= offered.len(),
                forall|j: int| 0 <= j < idle.len() ==> #[trigger] idle@[j] < n,
                forall|a: int, b: int| 0 <= a < b < idle.len() ==> #[trigger] idle@[a] < #[trigger] idle@[b],
                forall|j: int| 0 <= j < idle.len() ==> s0.running@[#[trigger] idle@[j] as int] is None,
                forall|j: int| 0 <= j < offered.len() ==> (#[trigger] offered@[j]).0 == idle@[j],
                forall|j: int|
                    0 <= j < offered.len() ==> {
                        let u = idle@[j] as int;
                        let c0 = s0.cpus@[u];
                        &&& (c0.runnable_spec().len() == 0 <==> (#[trigger] offered@[j]).1 is None)
                        &&& offered@[j].1 matches Some(t) ==> best_queued(c0, t as int)
                    },
                pos.len() == n,
                cu@.len() == ct@.len() == cands@.len(),
                forall|j: int|
                    0 <= j < cu@.len() ==> {
                        let u = #[trigger] cu@[j] as int;
                        &&& u < n
                        &&& pos[u] == j
                        &&& s0.running@[u] is None
                        &&& best_queued(s0.cpus@[u], ct@[j] as int)
                        &&& ct@[j] < s0.cpus@[u].tasks_spec().len()
                        &&& cands@[j].0@ == s0.slots@[u]@[ct@[j] as int]@
                        &&& cands@[j].1 == s0.weights@[u]@[ct@[j] as int]
                        &&& (k < idle.len() ==> u < idle@[k as int])
                    },
                forall|a: int, b: int| 0 <= a < b < cu@.len() ==> #[trigger] cu@[a] < #[trigger] cu@[b],
                forall|u: int| 0 <= u < n ==> #[trigger] pos[u] == -1 || (0 <= pos[u] < cu@.len() && cu@[pos[u]] == u),
                forall|j: int| 0 <= j < k ==> (#[trigger] offered@[j].1 is Some <==> pos[idle@[j] as int] >= 0),
                forall|j: int| k <= j < idle.len() ==> pos[#[trigger] idle@[j] as int] == -1,
                forall|u: int| 0 <= u < n && s0.running@[u] is Some ==> #[trigger] pos[u] == -1,
            decreases offered.len() - k,
        {
            match offered[k].1 {
                Some(t) => {
                    let u = offered[k].0;
                    proof {
                        let c0 = s0.cpus@[u as int];
                        c0.lemma_wf();
                        let p = choose|p: int|
                            0 <= p < c0.runnable_spec().len() && c0.runnable_spec()[p] == t && (forall|q: int|
                                0 <= q < c0.runnable_spec().len() ==> c0.tasks_spec()[c0.runnable_spec()[q] as int].cycles
                                    <= c0.tasks_spec()[t as int].cycles) && (forall|q: int|
                                0 <= q < p ==> c0.tasks_spec()[c0.runnable_spec()[q] as int].cycles
                                    < c0.tasks_spec()[t as int].cycles);
                        assert(c0.runnable_spec()[p] < c0.tasks_spec().len());
                        pos = pos.update(u as int, cu@.len() as int);
                    }
                    cu.push(u);
                    ct.push(t);
                    let res = self.slots[u][t].clone();
                    assert(res@ =~= s0.slots@[u as int]@[t as int]@);
                    cands.push((res, self.weights[u][t]));
                },
                None => {},
            }
            k = k + 1;
        }
        proof {
            assert forall|u: int| 0 <= u < n && s0.running@[u] is None implies ((#[trigger] pos[u] >= 0)
                <==> s0.cpus@[u].runnable_spec().len() > 0) by {
                assert(idle@.contains(u as usize));
                let j = choose|j: int| 0 <= j < idle.len() && idle@[j] == u as usize;
                assert(offered@[j].0 == idle@[j]);
            }
            assert forall|u: int| 0 <= u < n implies {
                let c = #[trigger] s1.cpus@[u];
                let c0 = s0.cpus@[u];
                &&& c.wf()
                &&& c.id_spec() == c0.id_spec()
                &&& c.tasks_spec() == c0.tasks_spec()
                &&& c.completed_spec() == c0.completed_spec()
                &&& c.satisfied_spec() == c0.satisfied_spec()
                &&& c.runnable_spec().len() + (if pos[u] >= 0 { 1int } else { 0int }) == c0.runnable_spec().len()
                &&& forall|q: int| 0 <= q < c.runnable_spec().len() ==> c0.runnable_spec().contains(#[trigger] c.runnable_spec()[q])
            } by {
                let c = s1.cpus@[u];
                let c0 = s0.cpus@[u];
                if idle@.contains(u as usize) {
                    let j = choose|j: int| 0 <= j < idle.len() && idle@[j] == u as usize;
                    assert(offered@[j].0 == idle@[j]);
                    match offered@[j].1 {
                        Some(t) => {
                            let p = choose|p: int|
                                0 <= p < c0.runnable_spec().len() && c0.runnable_spec()[p] == t
                                    && c.runnable_spec() == c0.runnable_spec().remove(p)
                                    && (forall|q: int|
                                    0 <= q < c0.runnable_spec().len() ==> c0.tasks_spec()[c0.runnable_spec()[q] as int].cycles
                                        <= c0.tasks_spec()[t as int].cycles)
                                    && (forall|q: int|
                                    0 <= q < p ==> c0.tasks_spec()[c0.runnable_spec()[q] as int].cycles
                                        < c0.tasks_spec()[t as int].cycles);
                            assert forall|q: int| 0 <= q < c.runnable_spec().len() implies c0.runnable_spec().contains(
                                #[trigger] c.runnable_spec()[q],
                            ) by {
                                if q < p {
                                    assert(c.runnable_spec()[q] == c0.runnable_spec()[q]);
                                } else {
                                    assert(c.runnable_spec()[q] == c0.runnable_spec()[q + 1]);
                                }
                            }
                        },
                        None => {
                            assert forall|q: int| 0 <= q < c.runnable_spec().len() implies c0.runnable_spec().contains(
                                #[trigger] c.runnable_spec()[q],
                            ) by {
                                assert(c.runnable_spec()[q] == c0.runnable_spec()[q]);
                            }
                        },
                    }
                } else {
                    assert(c == c0);
                    assert(s0.running@[u] is Some);
                    assert forall|q: int| 0 <= q < c.runnable_spec().len() implies c0.runnable_spec().contains(
                        #[trigger] c.runnable_spec()[q],
                    ) by {
                        assert(c.runnable_spec()[q] == c0.runnable_spec()[q]);
                    }
                }
            }
        }
        if cands.len() == 0 {
            proof {
                assert forall|u: int|
                    0 <= u < n && #[trigger] s0.running_spec()[u] is None implies s0.cpus_spec()[u].runnable_spec().len()
                    == 0 by {
                    assert(pos[u] == -1 || (0 <= pos[u] < cu@.len()));
                }
            }
            reset_all(&mut self.cpus);
            proof {
                assert forall|v: int| 0 <= v < n implies (#[trigger] self.writers@[v]).tasks@ == s0.writers@[v].tasks@
                    && (self.writers@[v].delayed_at matches Some(d) ==> d <= self.time) by {
                    assert(s0.cpus@[v].wf());
                }
            }
            let mut u: usize = 0;
            while u < n
                invariant
                    u <= n,
                    self.cpus@.len() == n,
                    self.writers@.len() == n,
                    self.running@ == s0.running@,
                    self.running@.len() == n,
                    self.ids@ == s1.ids@,
                    self.slots@ == s1.slots@,
                    self.weights@ == s1.weights@,
                    self.time == s1.time,
                    self.sensor_bitmap == s1.sensor_bitmap,
                    self.sensors == s1.sensors,
                    self.initial == s0.initial,
                    self.emitted == s1.emitted,
                    self.total == s1.total,
                    forall|v: int|
                        0 <= v < n ==> {
                            let c = #[trigger] self.cpus@[v];
                            &&& c.wf()
                            &&& c.queue_is_ready_set()
                            &&& c.id_spec() == s0.cpus@[v].id_spec()
                            &&& c.tasks_spec() == s0.cpus@[v].tasks_spec()
                            &&& c.completed_spec() == s0.cpus@[v].completed_spec()
                            &&& c.satisfied_spec() == s0.cpus@[v].satisfied_spec()
                        },
                    forall|v: int|
                        0 <= v < n ==> (#[trigger] self.writers@[v]).tasks@ == s0.writers@[v].tasks@
                            && (self.writers@[v].delayed_at matches Some(d) ==> d <= self.time),
                decreases n - u,
            {
                if self.running[u].is_none() {
                    let mut w = self.writers.remove(u);
                    w.start_delay(self.time);
                    self.writers.insert(u, w);
                }
                u = u + 1;
            }
            proof {
                assert(self.emitted_consistent()) by {
                    assert forall|u: int| 0 <= u < n implies #[trigger] calls(self.writers_spec()[u].tasks@)
                        == calls(s0.writers_spec()[u].tasks@) by {}
                    assert(s0.emitted_consistent());
                }
                assert(self.weights_spec() =~= s0.weights_spec());
                assert(self.done() == s0.done());
                assert(Seq::new(n as nat, |u: int| self.cpus@[u].tasks_spec().len() as int) =~= Seq::new(
                    n as nat,
                    |u: int| s0.cpus@[u].tasks_spec().len() as int,
                ));
                assert(s0.mutually_exclusive());
                assert forall|u: int| 0 <= u < n implies #[trigger] self.unit_ok(u) by {
                    assert(s0.cpus@[u].wf());
                }
            }
            return false;
        }
        proof {
            assert forall|j: int, m: int| 0 <= j < cands@.len() && 0 <= m < cands@[j].0@.len() implies #[trigger] cands@[j].0@[m]
                < 128 by {
                let u = cu@[j] as int;
                assert(s0.cpus@[u].wf());
            }
        }
        let sel = task_schedule(&cands, self.sensor_bitmap);
        let ghost cs = cands@;
        let ghost held0 = s0.sensor_bitmap@;
        let mut j: usize = 0;
        while j < cands.len()
            invariant
                s0.inv(),
                n == s0.cpus@.len() == s1.cpus@.len(),
                sel@.len() == cs.len() == cands@.len() == cu@.len() == ct@.len(),
                cs == cands@,
                feasible(cs, sel@, 0, held0),
                forall|mm: Seq<bool>| feasible(cs, mm, 0, held0) ==> weight(cs, mm, 0) <= weight(cs, sel@, 0),
                forall|mm: Seq<bool>|
                    feasible(cs, mm, 0, held0) && weight(cs, mm, 0) == weight(cs, sel@, 0) ==> prefers(sel@, mm, 0),
                forall|a: int, b: int| 0 <= a < b < cu@.len() ==> #[trigger] cu@[a] < #[trigger] cu@[b],
                j <= cands.len(),
                pos.len() == n,
                forall|i: int|
                    0 <= i < cu@.len() ==> {
                        let u = #[trigger] cu@[i] as int;
                        &&& u < n
                        &&& pos[u] == i
                        &&& s0.running@[u] is None
                        &&& best_queued(s0.cpus@[u], ct@[i] as int)
                        &&& ct@[i] < s0.cpus@[u].tasks_spec().len()
                        &&& cands@[i].0@ == s0.slots@[u]@[ct@[i] as int]@
                        &&& cands@[i].1 == s0.weights@[u]@[ct@[i] as int]
                    },
                forall|u: int| 0 <= u < n ==> #[trigger] pos[u] == -1 || (0 <= pos[u] < cu@.len() && cu@[pos[u]] == u),
                self.cpus == s1.cpus,
                self.ids == s1.ids,
                self.slots == s1.slots,
                self.writers == s1.writers,
                self.time == s1.time,
                self.sensors == s1.sensors,
                self.initial == s1.initial,
                self.emitted == s1.emitted,
                self.total == s1.total,
                s1.initial == s0.initial,
                s1.running == s0.running,
                s1.weights == s0.weights,
                s1.slots == s0.slots,
                s1.ids == s0.ids,
                s1.writers == s0.writers,
                s1.time == s0.time,
                s1.sensors == s0.sensors,
                s1.emitted == s0.emitted,
                s1.total == s0.total,
                s1.sensor_bitmap == s0.sensor_bitmap,
                self.running@.len() == n,
                self.weights@.len() == n,
                forall|u: int|
                    0 <= u < n ==> #[trigger] self.running@[u] == (if 0 <= pos[u] < j {
                        if sel@[pos[u]] {
                            Some(ct@[pos[u]])
                        } else {
                            None
                        }
                    } else {
                        s0.running@[u]
                    }),
                forall|u: int|
                    0 <= u < n ==> (#[trigger] self.weights@[u])@.len() == s0.weights@[u]@.len(),
                forall|u: int, t: int|
                    0 <= u < n && 0 <= t < s0.weights@[u]@.len() ==> #[trigger] self.weights@[u]@[t] == (if 0
                        <= pos[u] < j && t == ct@[pos[u]] {
                        if sel@[pos[u]] {
                            1
                        } else {
                            bumped(s0.weights@[u]@[t])
                        }
                    } else {
                        s0.weights@[u]@[t]
                    }),
                forall|i: int|
                    #[trigger] self.sensor_bitmap@.contains(i) <==> (held0.contains(i) || exists|a: int, m: int|
                        0 <= a < j && sel@[a] && 0 <= m < cs[a].0@.len() && cs[a].0@[m] as int == i),
            decreases cands.len() - j,
        {
            let u = cu[j];
            let t = ct[j];
            proof {
                assert(s0.cpus@[u as int].wf());
            }
            if sel[j] {
                let ghost b0 = self.sensor_bitmap@;
                self.sensor_bitmap = acquire(&self.slots[u][t], self.sensor_bitmap);
                proof {
                    assert forall|i: int|
                        #[trigger] self.sensor_bitmap@.contains(i) <==> (held0.contains(i) || exists|a: int, m: int|
                            0 <= a < j + 1 && sel@[a] && 0 <= m < cs[a].0@.len() && cs[a].0@[m] as int == i) by {
                        if exists|m: int| 0 <= m < cs[j as int].0@.len() && cs[j as int].0@[m] as int == i {
                            let m = choose|m: int| 0 <= m < cs[j as int].0@.len() && cs[j as int].0@[m] as int == i;
                            assert(self.slots@[u as int]@[t as int]@[m] as int == i);
                        }
                        if exists|m: int| 0 <= m < self.slots@[u as int]@[t as int]@.len() && self.slots@[u as int]@[t as int]@[m] as int == i {
                            let m = choose|m: int| 0 <= m < self.slots@[u as int]@[t as int]@.len() && self.slots@[u as int]@[t as int]@[m] as int == i;
                            assert(0 <= j < j + 1 && sel@[j as int] && cs[j as int].0@[m] as int == i);
                        }
                        if exists|a: int, m: int| 0 <= a < j + 1 && sel@[a] && 0 <= m < cs[a].0@.len() && cs[a].0@[m] as int == i {
                            let (a, m) = choose|a: int, m: int| 0 <= a < j + 1 && sel@[a] && 0 <= m < cs[a].0@.len() && cs[a].0@[m] as int == i;
                            if a < j {
                                assert(b0.contains(i));
                            }
                        }
                    }
                }
                self.running.set(u, Some(t));
                set_weight(&mut self.weights, u, t, 1);
            } else {
                let w = self.weights[u][t];
                let w1 = if w < u64::MAX {
                    w + 1
                } else {
                    w
                };
                set_weight(&mut self.weights, u, t, w1);
                proof {
                    assert forall|i: int|
                        #[trigger] self.sensor_bitmap@.contains(i) <==> (held0.contains(i) || exists|a: int, m: int|
                            0 <= a < j + 1 && sel@[a] && 0 <= m < cs[a].0@.len() && cs[a].0@[m] as int == i) by {
                        if exists|a: int, m: int| 0 <= a < j + 1 && sel@[a] && 0 <= m < cs[a].0@.len() && cs[a].0@[m] as int == i {
                            let (a, m) = choose|a: int, m: int| 0 <= a < j + 1 && sel@[a] && 0 <= m < cs[a].0@.len() && cs[a].0@[m] as int == i;
                            assert(a < j);
                        }
                    }
                }
            }
            j = j + 1;
        }
        proof {
            self.lemma_after_selection(s0, s1, cu@, ct@, cs, sel@, pos);
        }
        true
    }

    /// Two tasks that a unit would offer next are the same task.
    pub proof fn lemma_best_queued_unique(c: CPU, t1: int, t2: int)
        requires
            best_queued(c, t1),
            best_queued(c, t2),
        ensures
            t1 == t2,
    {
        let p1 = choose|p: int|
            0 <= p < c.runnable_spec().len() && c.runnable_spec()[p] == t1 && (forall|q: int|
                0 <= q < c.runnable_spec().len() ==> c.tasks_spec()[c.runnable_spec()[q] as int].cycles
                    <= c.tasks_spec()[t1].cycles) && (forall|q: int|
                0 <= q < p ==> c.tasks_spec()[c.runnable_spec()[q] as int].cycles < c.tasks_spec()[t1].cycles);
        let p2 = choose|p: int|
            0 <= p < c.runnable_spec().len() && c.runnable_spec()[p] == t2 && (forall|q: int|
                0 <= q < c.runnable_spec().len() ==> c.tasks_spec()[c.runnable_spec()[q] as int].cycles
                    <= c.tasks_spec()[t2].cycles) && (forall|q: int|
                0 <= q < p ==> c.tasks_spec()[c.runnable_spec()[q] as int].cycles < c.tasks_spec()[t2].cycles);
        if p1 < p2 {
            assert(c.tasks_spec()[c.runnable_spec()[p1] as int].cycles < c.tasks_spec()[t2].cycles);
            assert(c.tasks_spec()[c.runnable_spec()[p2] as int].cycles <= c.tasks_spec()[t1].cycles);
        } else if p2 < p1 {
            assert(c.tasks_spec()[c.runnable_spec()[p2] as int].cycles < c.tasks_spec()[t1].cycles);
            assert(c.tasks_spec()[c.runnable_spec()[p1] as int].cycles <= c.tasks_spec()[t2].cycles);
        }
    }

    /// What a selection round leaves behind, given how it changed the state.
    proof fn lemma_after_selection(
        &self,
        s0: Simulation,
        s1: Simulation,
        cu: Seq<usize>,
        ct: Seq<usize>,
        cs: Seq<Candidate>,
        sel: Seq<bool>,
        pos: Seq<int>,
    )
        requires
            s0.inv(),
            s0.cpus@.len() == s1.cpus@.len(),
            cs.len() > 0,
            sel.len() == cs.len() == cu.len() == ct.len(),
            feasible(cs, sel, 0, s0.sensor_bitmap@),
            forall|mm: Seq<bool>| feasible(cs, mm, 0, s0.sensor_bitmap@) ==> weight(cs, mm, 0) <= weight(cs, sel, 0),
            forall|mm: Seq<bool>|
                feasible(cs, mm, 0, s0.sensor_bitmap@) && weight(cs, mm, 0) == weight(cs, sel, 0) ==> prefers(sel, mm, 0),
            forall|a: int, b: int| 0 <= a < b < cu.len() ==> #[trigger] cu[a] < #[trigger] cu[b],
            pos.len() == s0.cpus@.len(),
            forall|i: int|
                0 <= i < cu.len() ==> {
                    let u = #[trigger] cu[i] as int;
                    &&& u < s0.cpus@.len()
                    &&& pos[u] == i
                    &&& s0.running@[u] is None
                    &&& best_queued(s0.cpus@[u], ct[i] as int)
                    &&& ct[i] < s0.cpus@[u].tasks_spec().len()
                    &&& cs[i].0@ == s0.slots@[u]@[ct[i] as int]@
                    &&& cs[i].1 == s0.weights@[u]@[ct[i] as int]
                },
            forall|u: int|
                0 <= u < s0.cpus@.len() ==> #[trigger] pos[u] == -1 || (0 <= pos[u] < cu.len() && cu[pos[u]] == u),
            forall|u: int|
                0 <= u < s0.cpus@.len() && s0.running@[u] is None ==> ((#[trigger] pos[u] >= 0)
                    <==> s0.cpus@[u].runnable_spec().len() > 0),
            forall|u: int| 0 <= u < s0.cpus@.len() && s0.running@[u] is Some ==> #[trigger] pos[u] == -1,
            forall|u: int|
                0 <= u < s0.cpus@.len() ==> {
                    let c = #[trigger] s1.cpus@[u];
                    let c0 = s0.cpus@[u];
                    &&& c.wf()
                    &&& c.id_spec() == c0.id_spec()
                    &&& c.tasks_spec() == c0.tasks_spec()
                    &&& c.completed_spec() == c0.completed_spec()
                    &&& c.satisfied_spec() == c0.satisfied_spec()
                    &&& c.runnable_spec().len() + (if pos[u] >= 0 { 1int } else { 0int }) == c0.runnable_spec().len()
                    &&& forall|q: int| 0 <= q < c.runnable_spec().len() ==> c0.runnable_spec().contains(#[trigger] c.runnable_spec()[q])
                },
            self.cpus == s1.cpus,
            self.ids == s0.ids,
            self.slots == s0.slots,
            self.writers == s0.writers,
            self.time == s0.time,
            self.sensors == s0.sensors,
            self.initial == s0.initial,
            self.emitted == s0.emitted,
            self.total == s0.total,
            self.running@.len() == s0.cpus@.len(),
            self.weights@.len() == s0.cpus@.len(),
            forall|u: int|
                0 <= u < s0.cpus@.len() ==> #[trigger] self.running@[u] == (if pos[u] >= 0 {
                    if sel[pos[u]] {
                        Some(ct[pos[u]])
                    } else {
                        None
                    }
                } else {
                    s0.running@[u]
                }),
            forall|u: int|
                0 <= u < s0.cpus@.len() ==> (#[trigger] self.weights@[u])@.len() == s0.weights@[u]@.len(),
            forall|u: int, t: int|
                0 <= u < s0.cpus@.len() && 0 <= t < s0.weights@[u]@.len() ==> #[trigger] self.weights@[u]@[t] == (if pos[u] >= 0
                    && t == ct[pos[u]] {
                    if sel[pos[u]] {
                        1
                    } else {
                        bumped(s0.weights@[u]@[t])
                    }
                } else {
                    s0.weights@[u]@[t]
                }),
            forall|i: int|
                #[trigger] self.sensor_bitmap@.contains(i) <==> (s0.sensor_bitmap@.contains(i) || exists|a: int, m: int|
                    0 <= a < cs.len() && sel[a] && 0 <= m < cs[a].0@.len() && cs[a].0@[m] as int == i),
        ensures
            self.inv(),
            self.done() == s0.done(),
            self.queued() < s0.queued(),
            offered_selection(s0, *self, cu.map_values(|u: usize| u as int), ct.map_values(|t: usize| t as int), cs),
            (forall|u: int| 0 <= u < s0.cpus_spec().len() ==> #[trigger] s0.running_spec()[u] is None) ==> exists|u: int|
                0 <= u < s0.cpus_spec().len() && #[trigger] self.running_spec()[u] is Some,
            forall|u: int, t: int|
                0 <= u < s0.cpus_spec().len() && 0 <= t < s0.cpus_spec()[u].tasks_spec().len()
                    ==> if s0.running_spec()[u] is None && best_queued(s0.cpus_spec()[u], t) {
                    ||| (self.running_spec()[u] == Some(t as usize) && #[trigger] self.weights_spec()[u][t] == 1)
                    ||| (self.running_spec()[u] is None && self.weights_spec()[u][t]
                        == bumped(s0.weights_spec()[u][t]))
                } else {
                    self.weights_spec()[u][t] == s0.weights_spec()[u][t]
                },
            forall|u: int|
                0 <= u < s0.cpus_spec().len() && s0.running_spec()[u] is None
                    && #[trigger] self.running_spec()[u] is Some ==> best_queued(
                    s0.cpus_spec()[u],
                    self.running_spec()[u]->0 as int,
                ),
    {
        let n = s0.cpus@.len();
        assert forall|u: int| 0 <= u < n implies #[trigger] self.unit_ok(u) by {
            let c = self.cpus@[u];
            let c0 = s0.cpus@[u];
            assert(s1.cpus@[u] == c);
            assert(c0.wf());
            if pos[u] >= 0 {
                let i = pos[u];
                assert(cu[i] == u);
                if sel[i] {
                    let t = ct[i] as int;
                    let p = choose|p: int|
                        0 <= p < c0.runnable_spec().len() && c0.runnable_spec()[p] == t && (forall|q: int|
                            0 <= q < c0.runnable_spec().len() ==> c0.tasks_spec()[c0.runnable_spec()[q] as int].cycles
                                <= c0.tasks_spec()[t].cycles) && (forall|q: int|
                            0 <= q < p ==> c0.tasks_spec()[c0.runnable_spec()[q] as int].cycles < c0.tasks_spec()[t].cycles);
                    assert(c0.ready(c0.runnable_spec()[p] as int));
                }
            }
            if self.running@[u] is None {
                assert(s0.running@[u] is None);
                assert forall|k: int| 0 <= k < c.runnable_spec().len() implies c.ready(
                    #[trigger] c.runnable_spec()[k] as int,
                ) by {
                    assert(c0.runnable_spec().contains(c.runnable_spec()[k]));
                    let q = choose|q: int| 0 <= q < c0.runnable_spec().len() && c0.runnable_spec()[q] == c.runnable_spec()[k];
                    assert(c0.ready(c0.runnable_spec()[q] as int));
                }
            }
        }
        // the held resources are those of the running tasks
        assert forall|i: int|
            #[trigger] self.sensor_bitmap@.contains(i) <==> exists|u: int, k: int|
                0 <= u < n && self.running@[u] is Some && 0 <= k < self.slots@[u]@[self.running@[u]->0 as int]@.len()
                    && self.slots@[u]@[self.running@[u]->0 as int]@[k] as int == i by {
            if s0.sensor_bitmap@.contains(i) {
                let (u, k) = choose|u: int, k: int|
                    0 <= u < n && s0.running@[u] is Some && 0 <= k < s0.slots@[u]@[s0.running@[u]->0 as int]@.len()
                        && s0.slots@[u]@[s0.running@[u]->0 as int]@[k] as int == i;
                assert(pos[u] == -1);
                assert(self.running@[u] == s0.running@[u]);
                assert(0 <= u < n && self.running@[u] is Some && 0 <= k < self.slots@[u]@[self.running@[u]->0 as int]@.len()
                    && self.slots@[u]@[self.running@[u]->0 as int]@[k] as int == i);
            }
            if exists|a: int, m: int| 0 <= a < cs.len() && sel[a] && 0 <= m < cs[a].0@.len() && cs[a].0@[m] as int == i {
                let (a, m) = choose|a: int, m: int| 0 <= a < cs.len() && sel[a] && 0 <= m < cs[a].0@.len() && cs[a].0@[m] as int == i;
                let u = cu[a] as int;
                assert(pos[u] == a);
                assert(self.running@[u] == Some(ct[a]));
                assert(self.slots@[u]@[ct[a] as int]@[m] as int == i);
                assert(0 <= u < n && self.running@[u] is Some && 0 <= m < self.slots@[u]@[self.running@[u]->0 as int]@.len()
                    && self.slots@[u]@[self.running@[u]->0 as int]@[m] as int == i);
            }
            if exists|u: int, k: int|
                0 <= u < n && self.running@[u] is Some && 0 <= k < self.slots@[u]@[self.running@[u]->0 as int]@.len()
                    && self.slots@[u]@[self.running@[u]->0 as int]@[k] as int == i {
                let (u, k) = choose|u: int, k: int|
                    0 <= u < n && self.running@[u] is Some && 0 <= k < self.slots@[u]@[self.running@[u]->0 as int]@.len()
                        && self.slots@[u]@[self.running@[u]->0 as int]@[k] as int == i;
                if pos[u] >= 0 {
                    let a = pos[u];
                    assert(cu[a] == u);
                    assert(sel[a]);
                    assert(cs[a].0@[k] as int == i);
                    assert(0 <= a < cs.len() && sel[a] && 0 <= k < cs[a].0@.len() && cs[a].0@[k] as int == i);
                } else {
                    assert(s0.running@[u] is Some);
                    assert(0 <= u < n && s0.running@[u] is Some && 0 <= k < s0.slots@[u]@[s0.running@[u]->0 as int]@.len()
                        && s0.slots@[u]@[s0.running@[u]->0 as int]@[k] as int == i);
                }
            }
        }
        // no two running tasks share a resource
        assert forall|u1: int, u2: int|
            0 <= u1 < self.running_spec().len() && 0 <= u2 < self.running_spec().len() && u1 != u2
                && #[trigger] self.running_spec()[u1] is Some && #[trigger] self.running_spec()[u2] is Some
                implies compatible(
                self.slots_spec(u1, self.running_spec()[u1]->0 as int),
                self.slots_spec(u2, self.running_spec()[u2]->0 as int),
            ) by {
            let a = self.slots_spec(u1, self.running_spec()[u1]->0 as int);
            let b = self.slots_spec(u2, self.running_spec()[u2]->0 as int);
            assert forall|k1: int, k2: int| 0 <= k1 < a.len() && 0 <= k2 < b.len() implies #[trigger] a[k1] != #[trigger] b[k2] by {
                if pos[u1] >= 0 && pos[u2] >= 0 {
                    let i1 = pos[u1];
                    let i2 = pos[u2];
                    assert(cu[i1] == u1 && cu[i2] == u2);
                    assert(sel[i1] && sel[i2]);
                    assert(cs[i1].0@ == a && cs[i2].0@ == b);
                    if i1 < i2 {
                        assert(compatible(cs[i1].0@, cs[i2].0@));
                    } else {
                        assert(compatible(cs[i2].0@, cs[i1].0@));
                    }
                } else if pos[u1] >= 0 {
                    let i1 = pos[u1];
                    assert(cu[i1] == u1);
                    assert(sel[i1]);
                    assert(cs[i1].0@ == a);
                    assert(free_of(cs[i1].0@, s0.sensor_bitmap@));
                    assert(s0.running@[u2] is Some);
                    assert(s0.sensor_bitmap@.contains(b[k2] as int));
                } else if pos[u2] >= 0 {
                    let i2 = pos[u2];
                    assert(cu[i2] == u2);
                    assert(sel[i2]);
                    assert(cs[i2].0@ == b);
                    assert(free_of(cs[i2].0@, s0.sensor_bitmap@));
                    assert(s0.running@[u1] is Some);
                    assert(s0.sensor_bitmap@.contains(a[k1] as int));
                } else {
                    assert(s0.running_spec()[u1] is Some && s0.running_spec()[u2] is Some);
                    assert(s0.mutually_exclusive());
                }
            }
        }
        assert(self.emitted_consistent()) by {
            assert(s0.emitted_consistent());
            assert forall|u: int| 0 <= u < n implies #[trigger] self.cpus_spec()[u].completed_spec() == s0.cpus_spec()[u].completed_spec()
                && self.cpus_spec()[u].tasks_spec() == s0.cpus_spec()[u].tasks_spec() by {
                assert(s1.cpus@[u] == self.cpus@[u]);
            }
        }
        assert(Seq::new(n as nat, |u: int| self.cpus@[u].tasks_spec().len() as int) =~= Seq::new(
            n as nat,
            |u: int| s0.cpus@[u].tasks_spec().len() as int,
        )) by {
            assert forall|u: int| 0 <= u < n implies #[trigger] self.cpus@[u].tasks_spec() == s0.cpus@[u].tasks_spec() by {
                assert(s1.cpus@[u] == self.cpus@[u]);
            }
        }
        assert(self.done() == s0.done());
        // the queues shrank
        let q1 = Seq::new(n as nat, |u: int| self.cpus@[u].runnable_spec().len() as int);
        let q0 = Seq::new(n as nat, |u: int| s0.cpus@[u].runnable_spec().len() as int);
        assert forall|u: int| 0 <= u < n implies #[trigger] q1[u] <= q0[u] by {
            assert(s1.cpus@[u] == self.cpus@[u]);
        }
        let u0 = cu[0] as int;
        assert(q1[u0] < q0[u0]) by {
            assert(s1.cpus@[u0] == self.cpus@[u0]);
        }
        lemma_sum_le(q1, q0);
        // weights
        assert forall|u: int, t: int|
            0 <= u < s0.cpus_spec().len() && 0 <= t < s0.cpus_spec()[u].tasks_spec().len()
                implies if s0.running_spec()[u] is None && best_queued(s0.cpus_spec()[u], t) {
                ||| (self.running_spec()[u] == Some(t as usize) && #[trigger] self.weights_spec()[u][t] == 1)
                ||| (self.running_spec()[u] is None && self.weights_spec()[u][t]
                    == bumped(s0.weights_spec()[u][t]))
            } else {
                self.weights_spec()[u][t] == s0.weights_spec()[u][t]
            } by {
            assert(s0.cpus@[u].wf());
            if s0.running_spec()[u] is None && best_queued(s0.cpus_spec()[u], t) {
                let c0 = s0.cpus@[u];
                let p = choose|p: int|
                    0 <= p < c0.runnable_spec().len() && c0.runnable_spec()[p] == t && (forall|q: int|
                        0 <= q < c0.runnable_spec().len() ==> c0.tasks_spec()[c0.runnable_spec()[q] as int].cycles
                            <= c0.tasks_spec()[t].cycles) && (forall|q: int|
                        0 <= q < p ==> c0.tasks_spec()[c0.runnable_spec()[q] as int].cycles < c0.tasks_spec()[t].cycles);
                assert(pos[u] >= 0);
                let i = pos[u];
                assert(cu[i] == u);
                Self::lemma_best_queued_unique(c0, t, ct[i] as int);
            } else if pos[u] >= 0 {
                let i = pos[u];
                assert(cu[i] == u);
                if t == ct[i] {
                    assert(s0.running@[u] is None);
                }
            }
        }
        assert forall|u: int|
            0 <= u < s0.cpus_spec().len() && s0.running_spec()[u] is None
                && #[trigger] self.running_spec()[u] is Some implies best_queued(
                s0.cpus_spec()[u],
                self.running_spec()[u]->0 as int,
            ) by {
            let i = pos[u];
            assert(cu[i] == u);
        }
        // the started units are the selection made
        let us = cu.map_values(|u: usize| u as int);
        let ts = ct.map_values(|t: usize| t as int);
        let m = Seq::new(us.len(), |j: int| self.running_spec()[us[j]] is Some);
        assert forall|j: int| 0 <= j < us.len() implies m[j] == sel[j] by {
            assert(pos[cu[j] as int] == j);
        }
        assert(m =~= sel);
        assert forall|u: int| 0 <= u < n implies (#[trigger] us.contains(u) <==> (s0.running_spec()[u] is None
            && s0.cpus_spec()[u].runnable_spec().len() > 0)) by {
            if us.contains(u) {
                let j = choose|j: int| 0 <= j < us.len() && us[j] == u;
                assert(cu[j] as int == u);
            }
            if s0.running_spec()[u] is None && s0.cpus_spec()[u].runnable_spec().len() > 0 {
                assert(pos[u] >= 0);
                assert(us[pos[u]] == u);
            }
        }
        assert forall|j: int| 0 <= j < us.len() implies {
            let u = #[trigger] us[j];
            &&& 0 <= u < n
            &&& best_queued(s0.cpus_spec()[u], ts[j])
            &&& cs[j].0@ == s0.slots_spec(u, ts[j])
            &&& cs[j].1 == s0.weights_spec()[u][ts[j]]
            &&& (self.running_spec()[u] is Some ==> self.running_spec()[u] == Some(ts[j] as usize))
        } by {
            let u = cu[j] as int;
            assert(pos[u] == j);
            assert(s0.cpus@[u].wf());
        }
        assert(offered_selection(s0, *self, us, ts, cs));
        // when nothing ran, something starts
        if forall|u: int| 0 <= u < n ==> #[trigger] s0.running_spec()[u] is None {
            assert(s0.sensor_bitmap@ =~= Set::<int>::empty()) by {
                assert forall|i: int| !#[trigger] s0.sensor_bitmap@.contains(i) by {
                    if s0.sensor_bitmap@.contains(i) {
                        let (u, k) = choose|u: int, k: int|
                            0 <= u < n && s0.running@[u] is Some && 0 <= k < s0.slots@[u]@[s0.running@[u]->0 as int]@.len()
                                && s0.slots@[u]@[s0.running@[u]->0 as int]@[k] as int == i;
                        assert(s0.running_spec()[u] is None);
                    }
                }
            }
            let one = Seq::new(cs.len(), |j: int| j == 0);
            assert(feasible(cs, one, 0, s0.sensor_bitmap@));
            lemma_weight_only(cs, 0, 0);
            let u0 = cu[0] as int;
            assert(pos[u0] == 0);
            assert(cs[0].1 >= 1) by {
                assert(s0.cpus@[u0].wf());
            }
            if forall|j: int| 0 <= j < sel.len() ==> !#[trigger] sel[j] {
                let none = Seq::new(cs.len(), |j: int| false);
                lemma_weight_subset(cs, sel, none, 0);
                lemma_weight_zero(cs, 0);
            }
            let j = choose|j: int| 0 <= j < sel.len() && #[trigger] sel[j];
            assert(pos[cu[j] as int] == j);
            assert(self.running_spec()[cu[j] as int] is Some);
        }
    }

    /// Emitted tasks never outnumber the configuration's tasks.
    pub proof fn lemma_done_le_total(&self)
        requires
            self.inv(),
        ensures
            0 <= self.done() <= self.total_spec(),
    {
        let n = self.cpus@.len();
        let e = Seq::new(n as nat, |u: int| self.emitted@[u].len() as int);
        let c = Seq::new(n as nat, |u: int| self.cpus@[u].tasks_spec().len() as int);
        assert(self.emitted_consistent());
        assert forall|u: int| 0 <= u < n implies #[trigger] e[u] <= c[u] by {
            let es = self.emitted_spec()[u];
            assert(es.no_duplicates());
            lemma_distinct_in_range_len(es, self.cpus_spec()[u].tasks_spec().len() as int);
        }
        lemma_sum_le(e, c);
        assert(e =~= Seq::new(self.emitted@.len(), |u: int| self.emitted@[u].len() as int));
        lemma_sum_zero(n as nat);
        lemma_sum_le(Seq::new(n as nat, |u: int| 0int), e);
    }

    /// Tasks queued for offering are never negative in number.
    pub proof fn lemma_queued_nonneg(&self)
        ensures
            0 <= self.queued(),
    {
        let n = self.cpus@.len();
        lemma_sum_zero(n as nat);
        lemma_sum_le(Seq::new(n as nat, |u: int| 0int), Seq::new(n as nat, |u: int| self.cpus@[u].runnable_spec().len() as int));
    }

    /// The cycles of the task that unit `u` runs.
    fn running_cycles(&self, u: usize) -> (r: u16)
        requires
            self.inv(),
            u < self.cpus_spec().len(),
            self.running_spec()[u as int] is Some,
        ensures
            r == self.cpus_spec()[u as int].tasks_spec()[self.running_spec()[u as int]->0 as int].cycles,
    {
        proof {
            assert(self.cpus@[u as int].wf());
        }
        match self.running[u] {
            Some(t) => self.cpus[u].task_at(t).cycles,
            None => 0,
        }
    }

    /// The unit whose running task completes first: the one whose task has the fewest
    /// cycles, the lowest unit among equals; `None` when no unit runs a task.
    pub fn next_finisher(&self) -> (r: Option<usize>)
        requires
            self.inv(),
        ensures
            r is None <==> forall|u: int| 0 <= u < self.running_spec().len() ==> #[trigger] self.running_spec()[u] is None,
            r matches Some(u) ==> u < self.running_spec().len() && self.running_spec()[u as int] is Some,
            r matches Some(u) ==> forall|v: int|
                0 <= v < self.running_spec().len() && #[trigger] self.running_spec()[v] is Some ==> self.cycles_of(u as int)
                    <= self.cycles_of(v) && (v < u ==> self.cycles_of(u as int) < self.cycles_of(v)),
    {
        let n = self.running.len();
        let mut best: Option<usize> = None;
        let mut best_cycles: u16 = 0;
        let mut u: usize = 0;
        while u < n
            invariant
                self.inv(),
                n == self.running@.len() == self.cpus@.len(),
                u <= n,
                best is None <==> forall|v: int| 0 <= v < u ==> #[trigger] self.running@[v] is None,
                best matches Some(b) ==> b < u && self.running@[b as int] is Some && best_cycles == self.cycles_of(b as int),
                best matches Some(b) ==> forall|v: int|
                    0 <= v < u && #[trigger] self.running_spec()[v] is Some ==> best_cycles <= self.cycles_of(v) && (v
                        < b ==> best_cycles < self.cycles_of(v)),
            decreases n - u,
        {
            if self.running[u].is_some() {
                let c = self.running_cycles(u);
                match best {
                    None => {
                        best = Some(u);
                        best_cycles = c;
                    },
                    Some(_) => {
                        if c < best_cycles {
                            best = Some(u);
                            best_cycles = c;
                        }
                    },
                }
            }
            u = u + 1;
        }
        best
    }

    /// Completes the task that unit `u` runs, at the current time: its resources are
    /// freed, it is marked completed on its unit (whose queue is then rebuilt), and it
    /// is appended to the unit's emitted sequence.
    pub fn finish(&mut self, u: usize)
        requires
            old(self).inv(),
            u < old(self).cpus_spec().len(),
            old(self).running_spec()[u as int] is Some,
        ensures
            final(self).inv(),
            final(self).cpus_spec().len() == old(self).cpus_spec().len(),
            final(self).done() == old(self).done() + 1,
            final(self).total_spec() == old(self).total_spec(),
            final(self).time_spec() == old(self).time_spec(),
            final(self).running_spec() == old(self).running_spec().update(u as int, None),
            final(self).initial_spec() == old(self).initial_spec(),
            final(self).ids_spec() == old(self).ids_spec(),
            final(self).weights_spec() == old(self).weights_spec(),
            final(self).cpus_spec()[u as int].queue_is_ready_set(),
            forall|v: int|
                0 <= v < final(self).cpus_spec().len() && v != u ==> #[trigger] final(self).cpus_spec()[v] == old(
                    self,
                ).cpus_spec()[v],
            forall|v: int|
                0 <= v < final(self).cpus_spec().len() ==> (#[trigger] final(self).cpus_spec()[v]).tasks_spec()
                    == old(self).cpus_spec()[v].tasks_spec(),
            final(self).emitted_spec() == old(self).emitted_spec().update(
                u as int,
                old(self).emitted_spec()[u as int].push(old(self).running_spec()[u as int]->0 as int),
            ),
    {
        let ghost s0 = *self;
        let n = self.cpus.len();
        proof {
            assert(s0.cpus@[u as int].wf());
            s0.cpus@[u as int].lemma_wf();
        }
        let t = match self.running[u] {
            Some(t) => t,
            None => 0,
        };
        let ghost held0 = self.sensor_bitmap@;
        self.sensor_bitmap = release(&self.slots[u][t], self.sensor_bitmap);
        self.running.set(u, None);
        let task = self.cpus[u].task_at(t).duplicate();
        let mut c = self.cpus.remove(u);
        let done_ok = c.task_complete(&task);
        proof {
            assert(done_ok is Ok) by {
                assert(s0.cpus@[u as int].tasks_spec()[t as int].name@ == task.name@);
            }
            let i = choose|i: int|
                0 <= i < s0.cpus@[u as int].tasks_spec().len() && s0.cpus@[u as int].tasks_spec()[i].name@ == task.name@
                    && c.completed_spec() == s0.cpus@[u as int].completed_spec().update(i, true)
                    && c.satisfied_spec() == s0.cpus@[u as int].satisfied_spec().union(
                    names_of(s0.cpus@[u as int].tasks_spec()[i].satisfies@),
                );
            assert(i == t);
            c.lemma_wf();
        }
        c.reset();
        self.cpus.insert(u, c);
        let call = FunctionCall { fn_identifier: task.name, cycles: task.cycles, args: task.args };
        let ghost fc = call;
        let mut w = self.writers.remove(u);
        let ghost w0 = w;
        w.append(CodeTask::FunctionCall(call), self.time);
        self.writers.insert(u, w);
        proof {
            self.emitted@ = self.emitted@.update(u as int, self.emitted@[u as int].push(t as int));
            lemma_calls_append(w0.tasks@, gap(w0.delayed_at, s0.time), fc);
            assert(s0.cpus@[u as int].wf());
            lemma_gaps_append(w0.tasks@, w0.delayed_at, s0.time, fc);
            self.lemma_after_finish(s0, u as int, t, held0, fc);
        }
    }

    /// What completing the task of unit `u` leaves behind, given how it changed the state.
    proof fn lemma_after_finish(&self, s0: Simulation, u: int, t: usize, held0: Set<int>, fc: FunctionCall)
        requires
            s0.inv(),
            0 <= u < s0.cpus@.len(),
            s0.running@[u] == Some(t),
            held0 == s0.sensor_bitmap@,
            self.cpus@.len() == s0.cpus@.len(),
            forall|v: int| 0 <= v < s0.cpus@.len() && v != u ==> #[trigger] self.cpus@[v] == s0.cpus@[v],
            self.cpus@[u].wf(),
            self.cpus@[u].queue_is_ready_set(),
            self.cpus@[u].tasks_spec() == s0.cpus@[u].tasks_spec(),
            self.cpus@[u].completed_spec() == s0.cpus@[u].completed_spec().update(t as int, true),
            self.cpus@[u].satisfied_spec() == s0.cpus@[u].satisfied_spec().union(
                names_of(s0.cpus@[u].tasks_spec()[t as int].satisfies@),
            ),
            self.initial == s0.initial,
            self.ids == s0.ids,
            self.slots == s0.slots,
            self.weights == s0.weights,
            self.time == s0.time,
            self.sensors == s0.sensors,
            self.total == s0.total,
            self.running@ == s0.running@.update(u, None),
            self.emitted@ == s0.emitted@.update(u, s0.emitted@[u].push(t as int)),
            self.writers@.len() == s0.writers@.len(),
            forall|v: int| 0 <= v < s0.cpus@.len() && v != u ==> #[trigger] self.writers@[v] == s0.writers@[v],
            self.writers@[u].delayed_at is None,
            calls(self.writers@[u].tasks@) == calls(s0.writers@[u].tasks@).push(fc),
            gaps_ok(self.writers@[u].tasks@),
            fc.fn_identifier@ == s0.cpus@[u].tasks_spec()[t as int].name@,
            fc.cycles == s0.cpus@[u].tasks_spec()[t as int].cycles,
            fc.args@ == s0.cpus@[u].tasks_spec()[t as int].args@,
            forall|i: int|
                #[trigger] self.sensor_bitmap@.contains(i) <==> (held0.contains(i) && !exists|k: int|
                    0 <= k < s0.slots@[u]@[t as int]@.len() && s0.slots@[u]@[t as int]@[k] as int == i),
        ensures
            self.inv(),
            self.done() == s0.done() + 1,
    {
        let n = s0.cpus@.len();
        assert(s0.cpus@[u].wf());
        s0.cpus@[u].lemma_wf();
        assert(t < s0.cpus@[u].tasks_spec().len());
        assert forall|v: int| 0 <= v < n implies #[trigger] self.unit_ok(v) by {
            assert(s0.cpus@[v].wf());
            if v == u {
                let c = self.cpus@[v];
                assert forall|k: int| 0 <= k < c.runnable_spec().len() implies c.ready(
                    #[trigger] c.runnable_spec()[k] as int,
                ) by {}
            }
        }
        // the held resources are those of the tasks still running
        let rs = s0.slots@[u]@[t as int]@;
        assert forall|i: int|
            #[trigger] self.sensor_bitmap@.contains(i) <==> exists|v: int, k: int|
                0 <= v < n && self.running@[v] is Some && 0 <= k < self.slots@[v]@[self.running@[v]->0 as int]@.len()
                    && self.slots@[v]@[self.running@[v]->0 as int]@[k] as int == i by {
            if self.sensor_bitmap@.contains(i) {
                let (v, k) = choose|v: int, k: int|
                    0 <= v < n && s0.running@[v] is Some && 0 <= k < s0.slots@[v]@[s0.running@[v]->0 as int]@.len()
                        && s0.slots@[v]@[s0.running@[v]->0 as int]@[k] as int == i;
                if v == u {
                    assert(0 <= k < rs.len() && rs[k] as int == i);
                }
                assert(0 <= v < n && self.running@[v] is Some && 0 <= k < self.slots@[v]@[self.running@[v]->0 as int]@.len()
                    && self.slots@[v]@[self.running@[v]->0 as int]@[k] as int == i);
            }
            if exists|v: int, k: int|
                0 <= v < n && self.running@[v] is Some && 0 <= k < self.slots@[v]@[self.running@[v]->0 as int]@.len()
                    && self.slots@[v]@[self.running@[v]->0 as int]@[k] as int == i {
                let (v, k) = choose|v: int, k: int|
                    0 <= v < n && self.running@[v] is Some && 0 <= k < self.slots@[v]@[self.running@[v]->0 as int]@.len()
                        && self.slots@[v]@[self.running@[v]->0 as int]@[k] as int == i;
                assert(v != u);
                assert(0 <= v < n && s0.running@[v] is Some && 0 <= k < s0.slots@[v]@[s0.running@[v]->0 as int]@.len()
                    && s0.slots@[v]@[s0.running@[v]->0 as int]@[k] as int == i);
                assert(held0.contains(i));
                assert(s0.mutually_exclusive());
                assert(s0.running_spec()[u] is Some && s0.running_spec()[v] is Some);
                let other = s0.slots_spec(v, s0.running_spec()[v]->0 as int);
                assert(compatible(rs, other) || compatible(other, rs));
                if exists|k2: int| 0 <= k2 < rs.len() && rs[k2] as int == i {
                    let k2 = choose|k2: int| 0 <= k2 < rs.len() && rs[k2] as int == i;
                    assert(rs[k2] == other[k]);
                }
            }
        }
        assert(self.mutually_exclusive()) by {
            assert(s0.mutually_exclusive());
            assert forall|u1: int, u2: int|
                0 <= u1 < self.running_spec().len() && 0 <= u2 < self.running_spec().len() && u1 != u2
                    && #[trigger] self.running_spec()[u1] is Some && #[trigger] self.running_spec()[u2] is Some
                    implies compatible(
                    self.slots_spec(u1, self.running_spec()[u1]->0 as int),
                    self.slots_spec(u2, self.running_spec()[u2]->0 as int),
                ) by {
                assert(s0.running_spec()[u1] is Some && s0.running_spec()[u2] is Some);
            }
        }
        // emitted sequences
        let e0 = s0.emitted@[u];
        let c0 = s0.cpus@[u];
        assert(s0.emitted_consistent());
        assert(!e0.contains(t as int)) by {
            assert(!c0.completed_spec()[t as int]);
        }
        assert(self.emitted_consistent()) by {
            assert forall|v: int| 0 <= v < n implies {
                let e = #[trigger] self.emitted_spec()[v];
                let c = self.cpus_spec()[v];
                let fs = calls(self.writers_spec()[v].tasks@);
                &&& e.no_duplicates()
                &&& forall|k: int| 0 <= k < e.len() ==> 0 <= #[trigger] e[k] < c.tasks_spec().len()
                &&& forall|x: int| 0 <= x < c.tasks_spec().len() ==> (c.completed_spec()[x] <==> e.contains(x))
                &&& fs.len() == e.len()
                &&& forall|k: int|
                    0 <= k < fs.len() ==> {
                        let task = c.tasks_spec()[e[k]];
                        &&& (#[trigger] fs[k]).fn_identifier@ == task.name@
                        &&& fs[k].cycles == task.cycles
                        &&& fs[k].args@ == task.args@
                    }
            } by {
                if v == u {
                    let e = self.emitted_spec()[v];
                    assert(e == e0.push(t as int));
                    assert forall|x: int| 0 <= x < c0.tasks_spec().len() implies (self.cpus_spec()[v].completed_spec()[x]
                        <==> e.contains(x)) by {
                        assert(self.cpus_spec()[v].completed_spec() == c0.completed_spec().update(t as int, true));
                        if x == t as int {
                            assert(e[e0.len() as int] == t as int);
                            assert(e.contains(x));
                            assert(self.cpus_spec()[v].completed_spec()[x]);
                        } else {
                            assert(s0.emitted_spec()[u] == e0);
                            assert(s0.cpus_spec()[u] == c0);
                            assert(c0.completed_spec()[x] <==> e0.contains(x));
                            if e.contains(x) {
                                let k = choose|k: int| 0 <= k < e.len() && e[k] == x;
                                assert(k < e0.len());
                                assert(e0[k] == x);
                            }
                            if e0.contains(x) {
                                let k = choose|k: int| 0 <= k < e0.len() && e0[k] == x;
                                assert(e[k] == x);
                            }
                            assert(self.cpus_spec()[v].completed_spec()[x] == c0.completed_spec()[x]);
                            assert(e.contains(x) == e0.contains(x));
                        }
                    }
                    assert(e.no_duplicates()) by {
                        assert forall|a: int, b: int| 0 <= a < b < e.len() implies e[a] != e[b] by {
                            if b == e0.len() {
                                assert(e0[a] == e[a]);
                            }
                        }
                    }
                }
            }
        }
        // conditions and dependencies
        assert(s0.conditions_tracked());
        assert(s0.dependency_sound());
        let e1 = self.emitted@[u];
        assert(e1 == e0.push(t as int));
        assert forall|v: int, c: Seq<char>, b: int|
            0 <= v < n && 0 <= b <= s0.emitted_spec()[v].len() && s0.satisfied_before(v, c, b) implies self.satisfied_before(v, c, b) by {
            let k = choose|k: int|
                0 <= k < b && names_of(
                    s0.cpus_spec()[v].tasks_spec()[#[trigger] s0.emitted_spec()[v][k]].satisfies@,
                ).contains(c);
            if v == u {
                assert(self.emitted_spec()[v][k] == e0[k]);
            }
            assert(self.cpus_spec()[v].tasks_spec() == s0.cpus_spec()[v].tasks_spec());
            assert(self.emitted_spec()[v][k] == s0.emitted_spec()[v][k]);
        }
        assert forall|c: Seq<char>| names_of(s0.cpus_spec()[u].tasks_spec()[t as int].satisfies@).contains(c) implies self.satisfied_before(
            u,
            c,
            self.emitted_spec()[u].len() as int,
        ) by {
            assert(self.emitted_spec()[u][e0.len() as int] == t as int);
        }
        assert(self.conditions_tracked()) by {
            assert forall|v: int, c: Seq<char>|
                0 <= v < n && #[trigger] self.cpus_spec()[v].satisfied_spec().contains(c) implies self.initial_spec()[v].contains(c)
                || self.satisfied_before(v, c, self.emitted_spec()[v].len() as int) by {
                if v == u {
                    if s0.cpus_spec()[v].satisfied_spec().contains(c) {
                        assert(s0.initial_spec()[v].contains(c) || s0.satisfied_before(v, c, s0.emitted_spec()[v].len() as int));
                        if s0.satisfied_before(v, c, s0.emitted_spec()[v].len() as int) {
                            assert(self.satisfied_before(v, c, s0.emitted_spec()[v].len() as int));
                            let k = choose|k: int|
                                0 <= k < s0.emitted_spec()[v].len() && names_of(
                                    self.cpus_spec()[v].tasks_spec()[#[trigger] self.emitted_spec()[v][k]].satisfies@,
                                ).contains(c);
                        }
                    }
                } else {
                    assert(self.cpus_spec()[v] == s0.cpus_spec()[v]);
                    assert(s0.cpus_spec()[v].satisfied_spec().contains(c));
                }
            }
            assert forall|v: int, j: int|
                0 <= v < n && self.running_spec()[v] is Some && 0 <= j
                    < self.cpus_spec()[v].tasks_spec()[self.running_spec()[v]->0 as int].requires@.len() implies {
                    let c = #[trigger] self.cpus_spec()[v].tasks_spec()[self.running_spec()[v]->0 as int].requires@[j]@;
                    self.initial_spec()[v].contains(c) || self.satisfied_before(v, c, self.emitted_spec()[v].len() as int)
                } by {
                assert(v != u);
                assert(self.cpus_spec()[v] == s0.cpus_spec()[v]);
                let c = self.cpus_spec()[v].tasks_spec()[self.running_spec()[v]->0 as int].requires@[j]@;
                assert(c == s0.cpus_spec()[v].tasks_spec()[s0.running_spec()[v]->0 as int].requires@[j]@);
            }
        }
        assert(self.dependency_sound()) by {
            assert forall|v: int, k: int, j: int|
                0 <= v < n && 0 <= k < self.emitted_spec()[v].len() && 0 <= j
                    < self.cpus_spec()[v].tasks_spec()[self.emitted_spec()[v][k]].requires@.len() implies {
                    let c = #[trigger] self.cpus_spec()[v].tasks_spec()[self.emitted_spec()[v][k]].requires@[j]@;
                    self.initial_spec()[v].contains(c) || self.satisfied_before(v, c, k)
                } by {
                let c = self.cpus_spec()[v].tasks_spec()[self.emitted_spec()[v][k]].requires@[j]@;
                if v == u && k == e0.len() {
                    assert(self.emitted_spec()[v][k] == t as int);
                    assert(c == s0.cpus_spec()[u].tasks_spec()[s0.running_spec()[u]->0 as int].requires@[j]@);
                } else {
                    if v == u {
                        assert(self.emitted_spec()[v][k] == e0[k]);
                    }
                    assert(self.emitted_spec()[v][k] == s0.emitted_spec()[v][k]);
                    assert(c == s0.cpus_spec()[v].tasks_spec()[s0.emitted_spec()[v][k]].requires@[j]@);
                }
            }
        }
        // one more task emitted
        let l0 = Seq::new(n as nat, |v: int| s0.emitted@[v].len() as int);
        let l1 = Seq::new(n as nat, |v: int| self.emitted@[v].len() as int);
        assert(l1 =~= l0.update(u, l0[u] + 1));
        lemma_sum_update(l0, u, l0[u] + 1);
        assert(l0 =~= Seq::new(s0.emitted@.len(), |v: int| s0.emitted@[v].len() as int));
        assert(l1 =~= Seq::new(self.emitted@.len(), |v: int| self.emitted@[v].len() as int));
        assert(Seq::new(n as nat, |v: int| self.cpus@[v].tasks_spec().len() as int) =~= Seq::new(
            n as nat,
            |v: int| s0.cpus@[v].tasks_spec().len() as int,
        ));
    }

    /// The completion phase. When no unit runs a task, nothing changes and `false` is
    /// returned. Otherwise the running tasks complete in order of cycles (lowest unit
    /// first among equals, see `next_finisher`), at the current time, for as long as
    /// the next one has the same cycles as the one before; then the clock advances by
    /// those cycles and `true` is returned.
    pub fn completion_phase(&mut self) -> (r: bool)
        requires
            old(self).inv(),
        ensures
            final(self).inv(),
            final(self).cpus_spec().len() == old(self).cpus_spec().len(),
            final(self).total_spec() == old(self).total_spec(),
            !r ==> *final(self) == *old(self),
            !r ==> forall|u: int| 0 <= u < old(self).running_spec().len() ==> #[trigger] old(self).running_spec()[u] is None,
            r ==> final(self).done() > old(self).done(),
            final(self).time_spec() >= old(self).time_spec(),
            final(self).initial_spec() == old(self).initial_spec(),
            final(self).ids_spec() == old(self).ids_spec(),
            final(self).weights_spec() == old(self).weights_spec(),
            !r <==> forall|u: int| 0 <= u < old(self).running_spec().len() ==> #[trigger] old(self).running_spec()[u] is None,
            (forall|u: int| 0 <= u < old(self).cpus_spec().len() ==> #[trigger] old(self).cpus_spec()[u].queue_is_ready_set())
                ==> forall|u: int| 0 <= u < final(self).cpus_spec().len() ==> #[trigger] final(self).cpus_spec()[u].queue_is_ready_set(),
            forall|v: int|
                0 <= v < final(self).cpus_spec().len() ==> (#[trigger] final(self).cpus_spec()[v]).tasks_spec()
                    == old(self).cpus_spec()[v].tasks_spec(),
            r ==> exists|c: u16| #[trigger] finishing(*old(self), *final(self), c),
    {
        let first = self.next_finisher();
        let u0 = match first {
            None => {
                return false;
            },
            Some(u) => u,
        };
        let ghost d0 = self.done();
        let ghost t0 = self.time;
        let ghost s0 = *self;
        let ghost n = self.running@.len();
        let curr = self.running_cycles(u0);
        proof {
            self.lemma_done_le_total();
        }
        self.finish(u0);
        loop
            invariant
                self.inv(),
                self.time == t0,
                self.total@ == old(self).total@,
                self.cpus@.len() == old(self).cpus@.len(),
                self.initial == old(self).initial,
                self.ids_spec() == old(self).ids_spec(),
                self.weights_spec() == old(self).weights_spec(),
                (forall|v: int| 0 <= v < old(self).cpus@.len() ==> #[trigger] old(self).cpus_spec()[v].queue_is_ready_set())
                    ==> forall|v: int| 0 <= v < self.cpus@.len() ==> #[trigger] self.cpus_spec()[v].queue_is_ready_set(),
                forall|v: int|
                    0 <= v < self.cpus@.len() ==> (#[trigger] self.cpus@[v]).tasks_spec() == old(self).cpus@[v].tasks_spec(),
                t0 <= 65535 * d0,
                d0 + 1 <= self.done(),
                n == s0.running_spec().len() == self.running_spec().len(),
                s0.running_spec()[u0 as int] is Some && s0.cycles_of(u0 as int) == curr,
                forall|v: int| 0 <= v < n && #[trigger] s0.running_spec()[v] is Some ==> curr <= s0.cycles_of(v),
                forall|v: int|
                    0 <= v < n && #[trigger] self.running_spec()[v] is Some ==> self.running_spec()[v] == s0.running_spec()[v]
                        && self.cycles_of(v) == s0.cycles_of(v),
                forall|v: int|
                    0 <= v < n && s0.running_spec()[v] is Some && #[trigger] self.running_spec()[v] is None
                        ==> s0.cycles_of(v) == curr,
            ensures
                self.inv(),
                self.time == t0,
                self.total@ == old(self).total@,
                self.cpus@.len() == old(self).cpus@.len(),
                self.initial == old(self).initial,
                self.ids_spec() == old(self).ids_spec(),
                self.weights_spec() == old(self).weights_spec(),
                (forall|v: int| 0 <= v < old(self).cpus@.len() ==> #[trigger] old(self).cpus_spec()[v].queue_is_ready_set())
                    ==> forall|v: int| 0 <= v < self.cpus@.len() ==> #[trigger] self.cpus_spec()[v].queue_is_ready_set(),
                forall|v: int|
                    0 <= v < self.cpus@.len() ==> (#[trigger] self.cpus@[v]).tasks_spec() == old(self).cpus@[v].tasks_spec(),
                t0 <= 65535 * d0,
                d0 + 1 <= self.done(),
                n == s0.running_spec().len() == self.running_spec().len(),
                s0.running_spec()[u0 as int] is Some && s0.cycles_of(u0 as int) == curr,
                forall|v: int| 0 <= v < n && #[trigger] s0.running_spec()[v] is Some ==> curr <= s0.cycles_of(v),
                forall|v: int|
                    0 <= v < n && #[trigger] self.running_spec()[v] is Some ==> self.running_spec()[v] == s0.running_spec()[v],
                forall|v: int|
                    0 <= v < n && s0.running_spec()[v] is Some ==> (#[trigger] self.running_spec()[v] is None
                        <==> s0.cycles_of(v) == curr),
            decreases self.total@ - self.done(),
        {
            proof {
                self.lemma_done_le_total();
            }
            let ghost s1 = *self;
            match self.next_finisher() {
                None => {
                    break;
                },
                Some(u) => {
                    if self.running_cycles(u) != curr {
                        proof {
                            assert(self.cycles_of(u as int) == s0.cycles_of(u as int));
                            assert forall|v: int| 0 <= v < n && #[trigger] self.running_spec()[v] is Some implies s0.cycles_of(v) != curr by {
                                assert(self.cycles_of(v) == s0.cycles_of(v));
                                assert(self.cycles_of(u as int) <= self.cycles_of(v));
                            }
                        }
                        break;
                    }
                    self.finish(u);
                    proof {
                        assert forall|v: int| 0 <= v < n && #[trigger] self.running_spec()[v] is Some implies self.running_spec()[v]
                            == s0.running_spec()[v] && self.cycles_of(v) == s0.cycles_of(v) by {
                            assert(v != u);
                            assert(s1.running_spec()[v] is Some);
                            assert(self.cpus_spec()[v].tasks_spec() == s1.cpus_spec()[v].tasks_spec());
                        }
                        assert forall|v: int|
                            0 <= v < n && s0.running_spec()[v] is Some && #[trigger] self.running_spec()[v] is None implies s0.cycles_of(v) == curr by {
                            if v == u {
                                assert(s1.running_spec()[v] is Some);
                            }
                        }
                    }
                    proof {
                        self.lemma_done_le_total();
                    }
                },
            }
        }
        proof {
            self.lemma_done_le_total();
            assert(t0 + 65535 <= 65535 * self.done()) by (nonlinear_arith)
                requires
                    t0 <= 65535 * d0,
                    d0 + 1 <= self.done(),
            ;
        }
        let ghost before = *self;
        self.time = self.time + curr as u64;
        proof {
            self.lemma_clock_advanced(before);
            assert forall|v: int| 0 <= v < n && s0.running_spec()[v] is None implies #[trigger] self.running_spec()[v] is None by {
                if self.running_spec()[v] is Some {
                    assert(self.running_spec()[v] == s0.running_spec()[v]);
                }
            }
            assert(finishing(s0, *self, curr));
        }
        true
    }

    /// Moving the clock forward keeps the invariant, as long as it stays within the
    /// bound that the emitted tasks give it.
    proof fn lemma_clock_advanced(&self, before: Simulation)
        requires
            before.inv(),
            before.time <= self.time,
            self.time as int <= 65535 * self.done(),
            self.ids == before.ids,
            self.cpus == before.cpus,
            self.slots == before.slots,
            self.running == before.running,
            self.sensor_bitmap == before.sensor_bitmap,
            self.weights == before.weights,
            self.writers == before.writers,
            self.sensors == before.sensors,
            self.initial == before.initial,
            self.emitted == before.emitted,
            self.total == before.total,
        ensures
            self.inv(),
    {
        let n = self.cpus@.len();
        assert forall|u: int| 0 <= u < n implies #[trigger] self.unit_ok(u) by {
            assert(before.cpus@[u].wf());
        }
        assert(before.mutually_exclusive());
        assert(before.emitted_consistent());
    }

    /// Ends the run: the emitted sequences, one per unit in configuration order, when
    /// every task has completed; otherwise the first task (by unit, then position) that
    /// never did.
    pub fn into_schedule(self) -> (r: Result<Vec<CodeWriter>, ScheduleError>)
        requires
            self.inv(),
        ensures
            r is Ok <==> forall|u: int, t: int|
                0 <= u < self.cpus_spec().len() && 0 <= t < self.cpus_spec()[u].tasks_spec().len()
                    ==> #[trigger] self.cpus_spec()[u].completed_spec()[t],
            r matches Ok(ws) ==> ws@ == self.writers_spec(),
            r is Err ==> r matches Err(ScheduleError::Unreachable { .. }),
            r matches Err(ScheduleError::Unreachable { unit, task }) ==> exists|u: int, t: int|
                0 <= u < self.cpus_spec().len() && 0 <= t < self.cpus_spec()[u].tasks_spec().len()
                    && !#[trigger] self.cpus_spec()[u].completed_spec()[t] && unit == self.ids_spec()[u] && task@
                    == self.cpus_spec()[u].tasks_spec()[t].name@,
    {
        let n = self.cpus.len();
        let mut u: usize = 0;
        while u < n
            invariant
                self.inv(),
                n == self.cpus@.len(),
                u <= n,
                forall|v: int, t: int|
                    0 <= v < u && 0 <= t < self.cpus_spec()[v].tasks_spec().len()
                        ==> #[trigger] self.cpus_spec()[v].completed_spec()[t],
            decreases n - u,
        {
            proof {
                assert(self.cpus@[u as int].wf());
                self.cpus@[u as int].lemma_wf();
            }
            let len = self.cpus[u].len();
            let mut t: usize = 0;
            while t < len
                invariant
                    self.inv(),
                    n == self.cpus@.len(),
                    u < n,
                    len == self.cpus_spec()[u as int].tasks_spec().len(),
                    t <= len,
                    forall|x: int| 0 <= x < t ==> #[trigger] self.cpus_spec()[u as int].completed_spec()[x],
                decreases len - t,
            {
                if !self.cpus[u].is_completed(t) {
                    proof {
                        assert(self.ids@.len() == self.cpus@.len());
                    }
                    return Err(
                        ScheduleError::Unreachable {
                            unit: self.ids[u],
                            task: self.cpus[u].task_at(t).name.clone(),
                        },
                    );
                }
                t = t + 1;
            }
            u = u + 1;
        }
        Ok(self.writers)
    }

    /// Once every task has completed, each unit's emitted sequence holds each of its
    /// tasks exactly once.
    pub proof fn lemma_each_task_once(&self, topology: Seq<(u32, Conf)>, start: Simulation)
        requires
            self.inv(),
            self.cpus_spec().len() == topology.len(),
            start.cpus_spec().len() == topology.len(),
            forall|u: int|
                0 <= u < topology.len() ==> (#[trigger] self.cpus_spec()[u]).tasks_spec() == start.cpus_spec()[u].tasks_spec(),
            forall|u: int|
                0 <= u < topology.len() ==> {
                    let c = #[trigger] start.cpus_spec()[u];
                    &&& c.tasks_spec().len() == topology[u].1.tasks@.len()
                    &&& forall|t: int| 0 <= t < c.tasks_spec().len() ==> same_task(#[trigger] c.tasks_spec()[t], topology[u].1.tasks@[t])
                },
            forall|u: int, t: int|
                0 <= u < self.cpus_spec().len() && 0 <= t < self.cpus_spec()[u].tasks_spec().len()
                    ==> #[trigger] self.cpus_spec()[u].completed_spec()[t],
        ensures
            each_task_once(self.writers_spec(), topology),
    {
        assert(self.emitted_consistent());
        assert forall|u: int| 0 <= u < topology.len() implies {
            let fs = calls(#[trigger] self.writers_spec()[u].tasks@);
            let ts = topology[u].1.tasks@;
            &&& fs.len() == ts.len()
            &&& forall|t: int| 0 <= t < ts.len() ==> #[trigger] emits(fs, ts[t])
            &&& forall|k1: int, k2: int|
                0 <= k1 < fs.len() && 0 <= k2 < fs.len() && k1 != k2 ==> #[trigger] fs[k1].fn_identifier@
                    != #[trigger] fs[k2].fn_identifier@
        } by {
            let fs = calls(self.writers_spec()[u].tasks@);
            let ts = topology[u].1.tasks@;
            let c = self.cpus_spec()[u];
            let c0 = start.cpus_spec()[u];
            let e = self.emitted_spec()[u];
            let n = ts.len() as int;
            assert(c.tasks_spec() == c0.tasks_spec());
            assert(c.wf());
            assert(names_unique(c.tasks_spec()));
            // every task is emitted
            assert forall|t: int| 0 <= t < n implies e.contains(t) by {
                assert(c.completed_spec()[t]);
            }
            assert(e.to_set() =~= set_int_range(0, n)) by {
                assert forall|x: int| e.to_set().contains(x) implies set_int_range(0, n).contains(x) by {
                    assert(e.contains(x));
                    let k = choose|k: int| 0 <= k < e.len() && e[k] == x;
                }
            }
            e.unique_seq_to_set();
            lemma_int_range(0, n);
            assert(e.len() == n);
            assert(fs.len() == e.len());
            assert(fs.len() == ts.len());
            assert forall|t: int| 0 <= t < ts.len() implies #[trigger] emits(fs, ts[t]) by {
                assert(e.contains(t));
                let k = choose|k: int| 0 <= k < e.len() && e[k] == t;
                assert(same_task(c0.tasks_spec()[t], ts[t]));
                assert(fs[k].fn_identifier@ == c.tasks_spec()[e[k]].name@);
                assert(0 <= k < fs.len() && fs[k].fn_identifier@ == ts[t].name@ && fs[k].cycles
                    == ts[t].cycles && fs[k].args@ == ts[t].args@);
            }
            assert forall|k1: int, k2: int|
                0 <= k1 < fs.len() && 0 <= k2 < fs.len() && k1 != k2 implies #[trigger] fs[k1].fn_identifier@
                != #[trigger] fs[k2].fn_identifier@ by {
                assert(fs[k1].fn_identifier@ == c.tasks_spec()[e[k1]].name@);
                assert(fs[k2].fn_identifier@ == c.tasks_spec()[e[k2]].name@);
                assert(e[k1] != e[k2]);
            }
            assert(fs.len() == ts.len());
            assert(forall|k1: int, k2: int|
                0 <= k1 < fs.len() && 0 <= k2 < fs.len() && k1 != k2 ==> #[trigger] fs[k1].fn_identifier@
                    != #[trigger] fs[k2].fn_identifier@);
        }
    }

    /// At every state of a run, tasks running on different units use no resource in
    /// common: neither a registry slot nor a resource name.
    pub proof fn lemma_mutual_exclusion(&self)
        requires
            self.inv(),
        ensures
            self.mutually_exclusive(),
            forall|u1: int, u2: int, k1: int, k2: int|
                0 <= u1 < self.running_spec().len() && 0 <= u2 < self.running_spec().len() && u1 != u2
                    && self.running_spec()[u1] is Some && self.running_spec()[u2] is Some && 0 <= k1
                    < self.cpus_spec()[u1].tasks_spec()[self.running_spec()[u1]->0 as int].args@.len() && 0 <= k2
                    < self.cpus_spec()[u2].tasks_spec()[self.running_spec()[u2]->0 as int].args@.len()
                    ==> #[trigger] self.cpus_spec()[u1].tasks_spec()[self.running_spec()[u1]->0 as int].args@[k1]@
                    != #[trigger] self.cpus_spec()[u2].tasks_spec()[self.running_spec()[u2]->0 as int].args@[k2]@,
    {
        assert forall|u1: int, u2: int, k1: int, k2: int|
            0 <= u1 < self.running_spec().len() && 0 <= u2 < self.running_spec().len() && u1 != u2
                && self.running_spec()[u1] is Some && self.running_spec()[u2] is Some && 0 <= k1
                < self.cpus_spec()[u1].tasks_spec()[self.running_spec()[u1]->0 as int].args@.len() && 0 <= k2
                < self.cpus_spec()[u2].tasks_spec()[self.running_spec()[u2]->0 as int].args@.len()
                implies #[trigger] self.cpus_spec()[u1].tasks_spec()[self.running_spec()[u1]->0 as int].args@[k1]@
                != #[trigger] self.cpus_spec()[u2].tasks_spec()[self.running_spec()[u2]->0 as int].args@[k2]@ by {
            let t1 = self.running_spec()[u1]->0 as int;
            let t2 = self.running_spec()[u2]->0 as int;
            assert(self.cpus@[u1].wf() && self.cpus@[u2].wf());
            let s1 = self.slots@[u1]@[t1]@[k1] as int;
            let s2 = self.slots@[u2]@[t2]@[k2] as int;
            let a1 = self.cpus_spec()[u1].tasks_spec()[t1].args@[k1]@;
            let a2 = self.cpus_spec()[u2].tasks_spec()[t2].args@[k2]@;
            assert(first_slot(self.sensors@, a1, s1));
            assert(first_slot(self.sensors@, a2, s2));
            assert(self.mutually_exclusive());
            assert(compatible(self.slots_spec(u1, t1), self.slots_spec(u2, t2)));
            assert(s1 != s2);
            if a1 == a2 {
                if s1 < s2 {
                    assert(self.sensors@[s1]@ != a2);
                } else {
                    assert(self.sensors@[s2]@ != a1);
                }
            }
        }
    }

    /// The starvation weight of task `t` of unit `u`.
    pub fn weight(&self, u: usize, t: usize) -> (r: u64)
        requires
            self.inv(),
            u < self.cpus_spec().len(),
            t < self.cpus_spec()[u as int].tasks_spec().len(),
        ensures
            r == self.weights_spec()[u as int][t as int],
    {
        proof {
            assert(self.cpus@[u as int].wf());
        }
        self.weights[u][t]
    }

    /// The task that unit `u` runs, if any.
    pub fn running(&self, u: usize) -> (r: Option<usize>)
        requires
            self.inv(),
            u < self.cpus_spec().len(),
        ensures
            r == self.running_spec()[u as int],
    {
        self.running[u]
    }

    /// The simulated clock.
    pub fn time(&self) -> (r: u64)
        ensures
            r == self.time_spec(),
    {
        self.time
    }

    /// Every state of a run keeps each unit's emitted sequence in an order that respects
    /// the conditions its tasks require (see `dependency_sound`).
    pub proof fn lemma_dependency_sound(&self)
        requires
            self.inv(),
        ensures
            self.dependency_sound(),
    {
    }

    /// The emitted task entries respect the conditions their tasks require, read against
    /// the configuration the run started from.
    pub proof fn lemma_ordered_by_conditions(&self, topology: Seq<(u32, Conf)>, start: Simulation)
        requires
            self.inv(),
            self.cpus_spec().len() == topology.len(),
            start.cpus_spec().len() == topology.len(),
            self.initial_spec() == start.initial_spec(),
            forall|u: int|
                0 <= u < topology.len() ==> (#[trigger] self.cpus_spec()[u]).tasks_spec() == start.cpus_spec()[u].tasks_spec(),
            forall|u: int|
                0 <= u < topology.len() ==> {
                    let c = #[trigger] start.cpus_spec()[u];
                    &&& c.tasks_spec().len() == topology[u].1.tasks@.len()
                    &&& forall|t: int| 0 <= t < c.tasks_spec().len() ==> same_task(#[trigger] c.tasks_spec()[t], topology[u].1.tasks@[t])
                    &&& start.initial_spec()[u] == names_of(topology[u].1.initial@)
                },
        ensures
            forall|u: int|
                0 <= u < topology.len() ==> ordered_by_conditions(
                    calls(#[trigger] self.writers_spec()[u].tasks@),
                    topology[u].1.tasks@,
                    names_of(topology[u].1.initial@),
                ),
    {
        assert(self.emitted_consistent());
        assert(self.dependency_sound());
        assert forall|u: int| 0 <= u < topology.len() implies ordered_by_conditions(
            calls(#[trigger] self.writers_spec()[u].tasks@),
            topology[u].1.tasks@,
            names_of(topology[u].1.initial@),
        ) by {
            let fs = calls(self.writers_spec()[u].tasks@);
            let ts = topology[u].1.tasks@;
            let c = self.cpus_spec()[u];
            let c0 = start.cpus_spec()[u];
            let e = self.emitted_spec()[u];
            assert(c.tasks_spec() == c0.tasks_spec());
            assert(c.wf());
            assert(names_unique(c.tasks_spec()));
            assert forall|k: int, t: int, j: int|
                0 <= k < fs.len() && 0 <= t < ts.len() && #[trigger] fs[k].fn_identifier@ == #[trigger] ts[t].name@ && 0
                    <= j < ts[t].requires@.len() && !names_of(topology[u].1.initial@).contains(#[trigger] ts[t].requires@[j]@) implies exists|
                k2: int,
                t2: int,
            |
                0 <= k2 < k && 0 <= t2 < ts.len() && #[trigger] fs[k2].fn_identifier@ == #[trigger] ts[t2].name@
                    && names_of(ts[t2].satisfies@).contains(ts[t].requires@[j]@) by {
                assert(same_task(c0.tasks_spec()[t], ts[t]));
                assert(fs[k].fn_identifier@ == c.tasks_spec()[e[k]].name@);
                assert(e[k] == t);
                let cond = c.tasks_spec()[e[k]].requires@[j]@;
                assert(cond == ts[t].requires@[j]@);
                assert(self.initial_spec()[u].contains(cond) || self.satisfied_before(u, cond, k));
                let k2 = choose|k2: int|
                    0 <= k2 < k && names_of(c.tasks_spec()[#[trigger] e[k2]].satisfies@).contains(cond);
                let t2 = e[k2];
                assert(fs[k2].fn_identifier@ == c.tasks_spec()[t2].name@);
                assert(same_task(c0.tasks_spec()[t2], ts[t2]));
                assert(0 <= k2 < k && 0 <= t2 < ts.len() && fs[k2].fn_identifier@ == ts[t2].name@
                    && names_of(ts[t2].satisfies@).contains(ts[t].requires@[j]@));
            }
        }
    }

    /// When nothing runs and no task of unit `u` is ready, every condition reachable from
    /// its initial ones holds on it.
    pub proof fn lemma_reach_held(&self, ts: Seq<Task>, init: Set<Seq<char>>, u: int, k: nat)
        requires
            self.inv(),
            0 <= u < self.cpus_spec().len(),
            ts.len() == self.cpus_spec()[u].tasks_spec().len(),
            forall|t: int| 0 <= t < ts.len() ==> same_task(#[trigger] self.cpus_spec()[u].tasks_spec()[t], ts[t]),
            init == self.initial_spec()[u],
            forall|i: int| !#[trigger] self.cpus_spec()[u].ready(i),
        ensures
            reach(ts, init, k).subset_of(self.cpus_spec()[u].satisfied_spec()),
        decreases k,
    {
        let c = self.cpus_spec()[u];
        assert(self.satisfied_complete());
        assert(self.cpus@[u].wf());
        c.lemma_wf();
        if k > 0 {
            self.lemma_reach_held(ts, init, u, (k - 1) as nat);
            let prev = reach(ts, init, (k - 1) as nat);
            assert forall|x: Seq<char>| reach(ts, init, k).contains(x) implies c.satisfied_spec().contains(x) by {
                if !prev.contains(x) {
                    let t = choose|t: int|
                        0 <= t < ts.len() && requires_met(ts[t], prev) && #[trigger] names_of(ts[t].satisfies@).contains(x);
                    assert(same_task(c.tasks_spec()[t], ts[t]));
                    assert forall|j: int| 0 <= j < c.tasks_spec()[t].requires@.len() implies c.satisfied_spec().contains(
                        #[trigger] c.tasks_spec()[t].requires@[j]@,
                    ) by {
                        assert(prev.contains(ts[t].requires@[j]@));
                    }
                    assert(!c.ready(t));
                    assert(c.completed_spec()[t]);
                    assert(names_of(c.tasks_spec()[t].satisfies@).contains(x));
                }
            }
        }
    }

    /// The bookkeeping of unit `u` is consistent: its readiness state, the slots and
    /// weights of its tasks, the task it runs, its queue while idle, and its open gap.
    pub closed spec fn unit_ok(&self, u: int) -> bool {
        let c = self.cpus@[u];
        &&& c.wf()
        &&& names_unique(c.tasks_spec())
        &&& self.slots@[u]@.len() == c.tasks_spec().len()
        &&& self.weights@[u]@.len() == c.tasks_spec().len()
        &&& forall|t: int, k: int|
            0 <= t < c.tasks_spec().len() && 0 <= k < self.slots@[u]@[t]@.len()
                ==> #[trigger] self.slots@[u]@[t]@[k] < 128
        &&& forall|t: int|
            0 <= t < c.tasks_spec().len() ==> #[trigger] self.slots@[u]@[t]@.len()
                == c.tasks_spec()[t].args@.len()
        &&& forall|t: int, k: int|
            0 <= t < c.tasks_spec().len() && 0 <= k < self.slots@[u]@[t]@.len()
                ==> first_slot(
                self.sensors@,
                c.tasks_spec()[t].args@[k]@,
                #[trigger] self.slots@[u]@[t]@[k] as int,
            )
        &&& self.running@[u] matches Some(t) ==> t < c.tasks_spec().len()
            && !c.completed_spec()[t as int]
        &&& self.running@[u] is None ==> forall|k: int|
            0 <= k < c.runnable_spec().len() ==> c.ready(#[trigger] c.runnable_spec()[k] as int)
        &&& self.writers@[u].delayed_at matches Some(d) ==> d <= self.time
    }

    /// The full bookkeeping invariant of a run.
    pub closed spec fn inv(&self) -> bool {
        let n = self.cpus@.len();
        &&& self.ids@.len() == n
        &&& self.slots@.len() == n
        &&& self.running@.len() == n
        &&& self.weights@.len() == n
        &&& self.writers@.len() == n
        &&& self.emitted@.len() == n
        &&& forall|u: int| #![trigger self.cpus@[u]] 0 <= u < n ==> self.unit_ok(u)
        &&& forall|i: int|
            #[trigger] self.sensor_bitmap@.contains(i) <==> exists|u: int, k: int|
                0 <= u < n && self.running@[u] is Some && 0 <= k < self.slots@[u]@[self.running@[u]->0 as int]@.len()
                    && self.slots@[u]@[self.running@[u]->0 as int]@[k] as int == i
        &&& forall|u: int, t: int|
            0 <= u < n && 0 <= t < self.weights@[u]@.len() ==> #[trigger] self.weights@[u]@[t] >= 1
        &&& forall|u: int| 0 <= u < n ==> gaps_ok(#[trigger] self.writers@[u].tasks@)
        &&& self.mutually_exclusive()
        &&& self.emitted_consistent()
        &&& self.conditions_tracked()
        &&& self.satisfied_complete()
        &&& self.dependency_sound()
        &&& self.total@ == sum(Seq::new(n as nat, |u: int| self.cpus@[u].tasks_spec().len() as int))
        &&& self.time as int <= 65535 * self.done()
        &&& 65535 * self.total@ <= u64::MAX
    }
}

/// Some task entry of `fs` has the name, cycles and resources of `task`.
pub open spec fn emits(fs: Seq<FunctionCall>, task: Task) -> bool {
    exists|k: int|
        0 <= k < fs.len() && fs[k].fn_identifier@ == task.name@ && fs[k].cycles == task.cycles && fs[k].args@
            == task.args@
}

/// Each unit's emitted sequence in `ws` holds each task of that unit of `topology` exactly
/// once: as many task entries as tasks, one entry with each task's name, cycles and
/// resources, and no name twice.
pub open spec fn each_task_once(ws: Seq<CodeWriter>, topology: Seq<(u32, Conf)>) -> bool {
    &&& ws.len() == topology.len()
    &&& forall|u: int|
        0 <= u < topology.len() ==> {
            let fs = calls(#[trigger] ws[u].tasks@);
            let ts = topology[u].1.tasks@;
            &&& fs.len() == ts.len()
            &&& forall|t: int| 0 <= t < ts.len() ==> #[trigger] emits(fs, ts[t])
            &&& forall|k1: int, k2: int|
                0 <= k1 < fs.len() && 0 <= k2 < fs.len() && k1 != k2 ==> #[trigger] fs[k1].fn_identifier@
                    != #[trigger] fs[k2].fn_identifier@
        }
}

/// In the task entries `fs` of a unit whose tasks are `ts` and whose initial conditions
/// are `initial`, each condition that the task of an entry requires and that did not
/// hold initially is made to hold by the task of an earlier entry (tasks are found by
/// name). As a unit runs its entries one after another, a task then starts no earlier
/// than a task that satisfies each of its conditions has completed.
pub open spec fn ordered_by_conditions(fs: Seq<FunctionCall>, ts: Seq<Task>, initial: Set<Seq<char>>) -> bool {
    forall|k: int, t: int, j: int|
        0 <= k < fs.len() && 0 <= t < ts.len() && #[trigger] fs[k].fn_identifier@ == #[trigger] ts[t].name@ && 0 <= j
            < ts[t].requires@.len() && !initial.contains(#[trigger] ts[t].requires@[j]@) ==> exists|k2: int, t2: int|
            0 <= k2 < k && 0 <= t2 < ts.len() && #[trigger] fs[k2].fn_identifier@ == #[trigger] ts[t2].name@
                && names_of(ts[t2].satisfies@).contains(ts[t].requires@[j]@)
}

/// One round of closure over the tasks `ts`: the conditions in `s`, and those that each
/// task whose requirements all lie in `s` satisfies.
pub open spec fn step(ts: Seq<Task>, s: Set<Seq<char>>) -> Set<Seq<char>> {
    s.union(
        Set::new(
            |c: Seq<char>|
                exists|t: int| 0 <= t < ts.len() && requires_met(ts[t], s) && #[trigger] names_of(ts[t].satisfies@).contains(c),
        ),
    )
}

/// The conditions reached from `init` in `k` rounds of closure over `ts`.
pub open spec fn reach(ts: Seq<Task>, init: Set<Seq<char>>, k: nat) -> Set<Seq<char>>
    decreases k,
{
    if k == 0 {
        init
    } else {
        step(ts, reach(ts, init, (k - 1) as nat))
    }
}

/// The conditions that can come to hold on a unit with tasks `ts` and initial conditions
/// `init`: those reached in as many rounds of closure as there are tasks.
pub open spec fn reachable(ts: Seq<Task>, init: Set<Seq<char>>) -> Set<Seq<char>> {
    reach(ts, init, ts.len())
}

/// Every condition that a task of `topology` requires can come to hold on its unit.
pub open spec fn all_reachable(topology: Seq<(u32, Conf)>) -> bool {
    forall|u: int, t: int|
        0 <= u < topology.len() && 0 <= t < topology[u].1.tasks@.len() ==> requires_met(
            #[trigger] topology[u].1.tasks@[t],
            reachable(topology[u].1.tasks@, names_of(topology[u].1.initial@)),
        )
}

/// Later rounds of closure hold all the earlier ones.
pub proof fn lemma_reach_grows(ts: Seq<Task>, init: Set<Seq<char>>, i: nat, j: nat)
    requires
        i <= j,
    ensures
        reach(ts, init, i).subset_of(reach(ts, init, j)),
    decreases j - i,
{
    if i < j {
        lemma_reach_grows(ts, init, i, (j - 1) as nat);
    }
}

/// In entries ordered by conditions, the task of entry `k` has its requirements in the
/// conditions reached in `k` rounds.
pub proof fn lemma_entry_reached(fs: Seq<FunctionCall>, ts: Seq<Task>, init: Set<Seq<char>>, k: nat)
    requires
        ordered_by_conditions(fs, ts, init),
        k < fs.len(),
    ensures
        forall|t: int|
            0 <= t < ts.len() && fs[k as int].fn_identifier@ == #[trigger] ts[t].name@ ==> requires_met(
                ts[t],
                reach(ts, init, k),
            ),
    decreases k,
{
    assert forall|t: int| 0 <= t < ts.len() && fs[k as int].fn_identifier@ == #[trigger] ts[t].name@ implies requires_met(
        ts[t],
        reach(ts, init, k),
    ) by {
        assert forall|j: int| 0 <= j < ts[t].requires@.len() implies reach(ts, init, k).contains(
            #[trigger] ts[t].requires@[j]@,
        ) by {
            let c = ts[t].requires@[j]@;
            if init.contains(c) {
                lemma_reach_grows(ts, init, 0, k);
            } else {
                assert(fs[k as int].fn_identifier@ == ts[t].name@);
                let (k2, t2) = choose|k2: int, t2: int|
                    0 <= k2 < k && 0 <= t2 < ts.len() && #[trigger] fs[k2].fn_identifier@ == #[trigger] ts[t2].name@
                        && names_of(ts[t2].satisfies@).contains(c);
                lemma_entry_reached(fs, ts, init, k2 as nat);
                assert(requires_met(ts[t2], reach(ts, init, k2 as nat)));
                assert(reach(ts, init, (k2 + 1) as nat) == step(ts, reach(ts, init, k2 as nat)));
                assert(reach(ts, init, (k2 + 1) as nat).contains(c));
                lemma_reach_grows(ts, init, (k2 + 1) as nat, k);
            }
        }
    }
}

/// A successful schedule shows that every condition any task requires can come to hold.
pub proof fn lemma_scheduled_reachable(ws: Seq<CodeWriter>, topology: Seq<(u32, Conf)>)
    requires
        each_task_once(ws, topology),
        forall|u: int|
            0 <= u < topology.len() ==> ordered_by_conditions(
                calls(#[trigger] ws[u].tasks@),
                topology[u].1.tasks@,
                names_of(topology[u].1.initial@),
            ),
    ensures
        all_reachable(topology),
{
    assert forall|u: int, t: int| 0 <= u < topology.len() && 0 <= t < topology[u].1.tasks@.len() implies requires_met(
        #[trigger] topology[u].1.tasks@[t],
        reachable(topology[u].1.tasks@, names_of(topology[u].1.initial@)),
    ) by {
        let fs = calls(ws[u].tasks@);
        let ts = topology[u].1.tasks@;
        let init = names_of(topology[u].1.initial@);
        assert(emits(fs, ts[t]));
        let k = choose|k: int|
            0 <= k < fs.len() && fs[k].fn_identifier@ == ts[t].name@ && fs[k].cycles == ts[t].cycles && fs[k].args@
                == ts[t].args@;
        lemma_entry_reached(fs, ts, init, k as nat);
        lemma_reach_grows(ts, init, k as nat, ts.len());
        assert forall|j: int| 0 <= j < ts[t].requires@.len() implies reachable(ts, init).contains(
            #[trigger] ts[t].requires@[j]@,
        ) by {
            assert(reach(ts, init, k as nat).contains(ts[t].requires@[j]@));
        }
    }
}

/// Computes the schedule of `topology`, whose resources are listed in `sensors`: for
/// each unit, in configuration order, its emitted sequence of tasks and idle gaps.
/// Rounds of selection (see `Simulation::select_round`) and completion (see
/// `Simulation::completion_phase`) alternate until nothing runs and nothing can start.
/// Fails as `Simulation::new` does; otherwise it succeeds exactly when every condition a
/// task requires can come to hold on its unit (see `reachable`), and else reports a task
/// that requires one that cannot. On success every task of every unit is emitted exactly
/// once, after a task that satisfies each condition it requires (unless the condition
/// held initially), and each idle gap is positive and stands between two tasks.
/// The tasks must be few enough that the clock (a `u64`) can count the longest possible
/// cycles of all of them.
pub fn schedule(topology: &Vec<(u32, Conf)>, sensors: &Vec<String>) -> (r: Result<Vec<CodeWriter>, ScheduleError>)
    requires
        65535 * sum(task_counts(topology@)) <= u64::MAX,
    ensures
        (r matches Err(ScheduleError::TooManySensors)) <==> sensors@.len() > 128,
        (r matches Err(ScheduleError::UnknownSensor { .. })) <==> (sensors@.len() <= 128 && !all_known(
            topology@,
            sensors@,
        )),
        (r matches Err(ScheduleError::DuplicateTask { .. })) <==> (sensors@.len() <= 128 && all_known(
            topology@,
            sensors@,
        ) && !all_unique(topology@)),
        r is Ok <==> (sensors@.len() <= 128 && all_known(topology@, sensors@) && all_unique(topology@)
            && all_reachable(topology@)),
        r matches Err(ScheduleError::UnknownSensor { unit, task, sensor }) ==> unknown_named(
            topology@,
            sensors@,
            unit,
            task@,
            sensor@,
        ),
        r matches Err(ScheduleError::Unreachable { unit, task }) ==> unreachable_named(topology@, unit, task@),
        r matches Ok(ws) ==> each_task_once(ws@, topology@),
        r matches Ok(ws) ==> forall|u: int| 0 <= u < topology@.len() ==> gaps_ok(#[trigger] ws@[u].tasks@),
        r matches Ok(ws) ==> forall|u: int|
            0 <= u < topology@.len() ==> ordered_by_conditions(
                calls(#[trigger] ws@[u].tasks@),
                topology@[u].1.tasks@,
                names_of(topology@[u].1.initial@),
            ),
{
    let mut sim = match Simulation::new(topology, sensors) {
        Ok(s) => s,
        Err(e) => {
            return Err(e);
        },
    };
    let ghost s_init = sim;
    let ghost n = topology@.len();
    loop
        invariant
            sensors@.len() <= 128 && all_known(topology@, sensors@) && all_unique(topology@),
            n == topology@.len(),
            sim.inv(),
            sim.total_spec() == s_init.total_spec(),
            sim.initial_spec() == s_init.initial_spec(),
            sim.ids_spec() == s_init.ids_spec(),
            sim.cpus_spec().len() == n,
            forall|u: int|
                0 <= u < n ==> (#[trigger] sim.cpus_spec()[u]).tasks_spec() == s_init.cpus_spec()[u].tasks_spec(),
            forall|u: int| 0 <= u < n ==> (#[trigger] sim.cpus_spec()[u]).queue_is_ready_set(),
        ensures
            sim.inv(),
            sim.initial_spec() == s_init.initial_spec(),
            sim.ids_spec() == s_init.ids_spec(),
            sim.cpus_spec().len() == n,
            forall|u: int|
                0 <= u < n ==> (#[trigger] sim.cpus_spec()[u]).tasks_spec() == s_init.cpus_spec()[u].tasks_spec(),
            forall|u: int| 0 <= u < n ==> #[trigger] sim.running_spec()[u] is None,
            forall|u: int, i: int| 0 <= u < n ==> !#[trigger] sim.cpus_spec()[u].ready(i),
        decreases sim.total_spec() - sim.done(),
    {
        proof {
            sim.lemma_done_le_total();
        }
        let ghost d0 = sim.done();
        let ghost s_p = sim;
        let ghost mut any_true = false;
        loop
            invariant_except_break
                !any_true ==> sim == s_p,
            invariant
                sim.inv(),
                sim.done() == d0,
                sim.total_spec() == s_init.total_spec(),
                sim.initial_spec() == s_init.initial_spec(),
                sim.ids_spec() == s_init.ids_spec(),
                sim.cpus_spec().len() == n,
                forall|u: int|
                    0 <= u < n ==> (#[trigger] sim.cpus_spec()[u]).tasks_spec() == s_init.cpus_spec()[u].tasks_spec(),
                s_p.cpus_spec().len() == n,
                forall|u: int| 0 <= u < n ==> (#[trigger] s_p.cpus_spec()[u]).queue_is_ready_set(),
                any_true ==> exists|u: int| 0 <= u < n && #[trigger] sim.running_spec()[u] is Some,
            ensures
                sim.inv(),
                sim.done() == d0,
                sim.total_spec() == s_init.total_spec(),
                sim.initial_spec() == s_init.initial_spec(),
                sim.ids_spec() == s_init.ids_spec(),
                sim.cpus_spec().len() == n,
                forall|u: int|
                    0 <= u < n ==> (#[trigger] sim.cpus_spec()[u]).tasks_spec() == s_init.cpus_spec()[u].tasks_spec(),
                forall|u: int| 0 <= u < n ==> (#[trigger] sim.cpus_spec()[u]).queue_is_ready_set(),
                any_true ==> exists|u: int| 0 <= u < n && #[trigger] sim.running_spec()[u] is Some,
                !any_true ==> forall|u: int|
                    0 <= u < n ==> {
                        &&& #[trigger] sim.running_spec()[u] == s_p.running_spec()[u]
                        &&& sim.cpus_spec()[u].tasks_spec() == s_p.cpus_spec()[u].tasks_spec()
                        &&& sim.cpus_spec()[u].completed_spec() == s_p.cpus_spec()[u].completed_spec()
                        &&& sim.cpus_spec()[u].satisfied_spec() == s_p.cpus_spec()[u].satisfied_spec()
                        &&& (s_p.running_spec()[u] is None ==> s_p.cpus_spec()[u].runnable_spec().len() == 0)
                    },
            decreases sim.queued(),
        {
            proof {
                sim.lemma_queued_nonneg();
            }
            let ghost before = sim;
            if !sim.select_round() {
                proof {
                    assert forall|u: int| 0 <= u < n implies {
                        &&& #[trigger] sim.running_spec()[u] == before.running_spec()[u]
                        &&& sim.cpus_spec()[u].tasks_spec() == before.cpus_spec()[u].tasks_spec()
                        &&& sim.cpus_spec()[u].completed_spec() == before.cpus_spec()[u].completed_spec()
                        &&& sim.cpus_spec()[u].satisfied_spec() == before.cpus_spec()[u].satisfied_spec()
                        &&& (before.running_spec()[u] is None ==> before.cpus_spec()[u].runnable_spec().len() == 0)
                    } by {
                        assert(sim.cpus_spec()[u].tasks_spec() == before.cpus_spec()[u].tasks_spec());
                    }
                    if any_true {
                        let u = choose|u: int| 0 <= u < n && #[trigger] before.running_spec()[u] is Some;
                        assert(sim.cpus_spec()[u].tasks_spec() == before.cpus_spec()[u].tasks_spec());
                        assert(sim.running_spec()[u] == before.running_spec()[u]);
                    }
                }
                break;
            }
            proof {
                sim.lemma_queued_nonneg();
                if exists|u: int| 0 <= u < n && #[trigger] before.running_spec()[u] is Some {
                    let u = choose|u: int| 0 <= u < n && #[trigger] before.running_spec()[u] is Some;
                    assert(sim.cpus_spec()[u].tasks_spec() == before.cpus_spec()[u].tasks_spec());
                    assert(sim.running_spec()[u] == before.running_spec()[u]);
                }
                any_true = true;
            }
        }
        let ghost mid = sim;
        if !sim.completion_phase() {
            proof {
                if any_true {
                    let u = choose|u: int| 0 <= u < n && #[trigger] mid.running_spec()[u] is Some;
                }
                assert forall|u: int, i: int| 0 <= u < n implies !#[trigger] sim.cpus_spec()[u].ready(i) by {
                    assert(mid.running_spec()[u] is None);
                    assert(s_p.cpus_spec()[u].queue_is_ready_set());
                    if s_p.cpus_spec()[u].ready(i) {
                        assert(s_p.cpus_spec()[u].runnable_spec().contains(i as usize));
                    }
                }
            }
            break;
        }
        proof {
            sim.lemma_done_le_total();
        }
    }
    let ghost s_end = sim;
    proof {
        // every task whose requirements can be reached has completed
        assert forall|u: int, t: int|
            0 <= u < n && 0 <= t < topology@[u].1.tasks@.len() && requires_met(
                #[trigger] topology@[u].1.tasks@[t],
                reachable(topology@[u].1.tasks@, names_of(topology@[u].1.initial@)),
            ) implies s_end.cpus_spec()[u].completed_spec()[t] by {
            let ts = topology@[u].1.tasks@;
            let init = names_of(topology@[u].1.initial@);
            let c = s_end.cpus_spec()[u];
            assert(s_init.cpus_spec()[u].tasks_spec() == c.tasks_spec());
            assert forall|x: int| 0 <= x < ts.len() implies same_task(#[trigger] c.tasks_spec()[x], ts[x]) by {
                assert(same_task(s_init.cpus_spec()[u].tasks_spec()[x], ts[x]));
            }
            s_end.lemma_reach_held(ts, init, u, ts.len());
            assert(same_task(c.tasks_spec()[t], ts[t]));
            assert forall|j: int| 0 <= j < c.tasks_spec()[t].requires@.len() implies c.satisfied_spec().contains(
                #[trigger] c.tasks_spec()[t].requires@[j]@,
            ) by {
                assert(reachable(ts, init).contains(ts[t].requires@[j]@));
            }
            assert(!c.ready(t));
        }
    }
    let r = sim.into_schedule();
    proof {
        if r is Ok {
            s_end.lemma_each_task_once(topology@, s_init);
            s_end.lemma_ordered_by_conditions(topology@, s_init);
            lemma_scheduled_reachable(r->Ok_0@, topology@);
        } else {
            let (unit, task) = (r->Err_0->Unreachable_unit, r->Err_0->Unreachable_task);
            let (u, t) = choose|u: int, t: int|
                0 <= u < s_end.cpus_spec().len() && 0 <= t < s_end.cpus_spec()[u].tasks_spec().len()
                    && !#[trigger] s_end.cpus_spec()[u].completed_spec()[t] && unit == s_end.ids_spec()[u] && task@
                    == s_end.cpus_spec()[u].tasks_spec()[t].name@;
            assert(same_task(s_init.cpus_spec()[u].tasks_spec()[t], topology@[u].1.tasks@[t]));
            assert(!requires_met(
                topology@[u].1.tasks@[t],
                reachable(topology@[u].1.tasks@, names_of(topology@[u].1.initial@)),
            ));
            assert(unreachable_named(topology@, unit, task@));
            assert(!all_reachable(topology@));
        }
    }
    r
}

} // verus!
