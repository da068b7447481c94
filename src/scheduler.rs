use vstd::prelude::*;

use crate::bitmap::BitMap;

verus! {

/// A candidate: the resource slots its task uses, and its starvation weight.
pub type Candidate = (Vec<u8>, u64);

/// No slot that `c` uses is in `used`.
pub open spec fn free_of(c: Seq<u8>, used: Set<int>) -> bool {
    forall|k: int| 0 <= k < c.len() ==> !used.contains(#[trigger] c[k] as int)
}

/// `a` and `b` use no slot in common.
pub open spec fn compatible(a: Seq<u8>, b: Seq<u8>) -> bool {
    forall|k1: int, k2: int| 0 <= k1 < a.len() && 0 <= k2 < b.len() ==> #[trigger] a[k1] != #[trigger] b[k2]
}

/// Every slot that a candidate uses fits in a `BitMap`.
pub open spec fn slots_fit(cs: Seq<Candidate>) -> bool {
    forall|j: int, k: int| 0 <= j < cs.len() && 0 <= k < cs[j].0@.len() ==> #[trigger] cs[j].0@[k] < 128
}

/// The candidates marked in `m` from position `from` on can all run at once beside the
/// slots in `used`: none of them uses a slot in `used`, and no two share a slot.
pub open spec fn feasible(cs: Seq<Candidate>, m: Seq<bool>, from: int, used: Set<int>) -> bool {
    &&& m.len() == cs.len()
    &&& forall|j: int| from <= j < cs.len() && #[trigger] m[j] ==> free_of(cs[j].0@, used)
    &&& forall|j1: int, j2: int|
        from <= j1 < j2 < cs.len() && #[trigger] m[j1] && #[trigger] m[j2] ==> compatible(
            cs[j1].0@,
            cs[j2].0@,
        )
}

/// At the first position from `from` on where `a` and `b` differ, `a` takes the
/// candidate.
pub open spec fn prefers(a: Seq<bool>, b: Seq<bool>, from: int) -> bool {
    forall|j: int|
        from <= j < a.len() && a[j] != b[j] && (forall|i: int| from <= i < j ==> #[trigger] a[i] == b[i])
            ==> #[trigger] a[j]
}

/// The total weight of the candidates marked in `m` from position `from` on.
pub open spec fn weight(cs: Seq<Candidate>, m: Seq<bool>, from: int) -> int
    decreases cs.len() - from,
{
    if from < 0 || from >= cs.len() {
        0
    } else {
        (if m[from] {
            cs[from].1 as int
        } else {
            0
        }) + weight(cs, m, from + 1)
    }
}

/// `weight` from `from` on reads only the marks from `from` on.
pub proof fn lemma_weight_suffix(cs: Seq<Candidate>, m1: Seq<bool>, m2: Seq<bool>, from: int)
    requires
        0 <= from,
        m1.len() == cs.len(),
        m2.len() == cs.len(),
        forall|j: int| from <= j < cs.len() ==> m1[j] == m2[j],
    ensures
        weight(cs, m1, from) == weight(cs, m2, from),
    decreases cs.len() - from,
{
    if from < cs.len() {
        lemma_weight_suffix(cs, m1, m2, from + 1);
    }
}

/// `weight` from `from` on is at most one full weight per remaining candidate.
pub proof fn lemma_weight_bound(cs: Seq<Candidate>, m: Seq<bool>, from: int)
    requires
        0 <= from,
    ensures
        0 <= weight(cs, m, from),
        from <= cs.len() ==> weight(cs, m, from) <= (cs.len() - from) * (u64::MAX as int),
    decreases cs.len() - from,
{
    if from < cs.len() {
        lemma_weight_bound(cs, m, from + 1);
        assert((cs.len() - from) * (u64::MAX as int) == (cs.len() - (from + 1)) * (u64::MAX as int)
            + u64::MAX) by (nonlinear_arith);
    }
}

/// `compatible` does not depend on the order of its arguments.
pub proof fn lemma_compatible_symmetric(a: Seq<u8>, b: Seq<u8>)
    requires
        compatible(a, b),
    ensures
        compatible(b, a),
{
    assert forall|k1: int, k2: int| 0 <= k1 < b.len() && 0 <= k2 < a.len() implies #[trigger] b[k1]
        != #[trigger] a[k2] by {
        assert(a[k2] != b[k1]);
    }
}

/// Weights add up over selections that split a selection in two.
pub proof fn lemma_weight_split(cs: Seq<Candidate>, a: Seq<bool>, b: Seq<bool>, c: Seq<bool>, from: int)
    requires
        0 <= from,
        a.len() == cs.len(),
        b.len() == cs.len(),
        c.len() == cs.len(),
        forall|j: int| from <= j < cs.len() ==> #[trigger] c[j] == (a[j] || b[j]) && !(a[j] && b[j]),
    ensures
        weight(cs, c, from) == weight(cs, a, from) + weight(cs, b, from),
    decreases cs.len() - from,
{
    if from < cs.len() {
        lemma_weight_split(cs, a, b, c, from + 1);
    }
}

/// A selection inside another weighs no more.
pub proof fn lemma_weight_subset(cs: Seq<Candidate>, a: Seq<bool>, b: Seq<bool>, from: int)
    requires
        0 <= from,
        a.len() == cs.len(),
        b.len() == cs.len(),
        forall|j: int| from <= j < cs.len() && #[trigger] a[j] ==> b[j],
    ensures
        weight(cs, a, from) <= weight(cs, b, from),
    decreases cs.len() - from,
{
    if from < cs.len() {
        lemma_weight_subset(cs, a, b, from + 1);
    }
}

/// A candidate whose resources are free and whose weight exceeds the total weight of
/// all the other candidates is in every selection that `task_schedule` may return.
pub proof fn lemma_heavy_candidate_chosen(cs: Seq<Candidate>, used: Set<int>, r: Seq<bool>, i: int)
    requires
        feasible(cs, r, 0, used),
        forall|m: Seq<bool>| feasible(cs, m, 0, used) ==> weight(cs, m, 0) <= weight(cs, r, 0),
        0 <= i < cs.len(),
        free_of(cs[i].0@, used),
        cs[i].1 > weight(cs, Seq::new(cs.len(), |j: int| j != i), 0),
    ensures
        r[i],
{
    if !r[i] {
        let n = cs.len();
        let others = Seq::new(n, |j: int| j != i);
        let kept = Seq::new(n, |j: int| r[j] && compatible(cs[j].0@, cs[i].0@));
        let dropped = Seq::new(n, |j: int| r[j] && !compatible(cs[j].0@, cs[i].0@));
        let only = Seq::new(n, |j: int| j == i);
        let m = Seq::new(n, |j: int| j == i || (r[j] && compatible(cs[j].0@, cs[i].0@)));
        lemma_weight_split(cs, kept, dropped, r, 0);
        lemma_weight_split(cs, kept, only, m, 0);
        lemma_weight_subset(cs, dropped, others, 0);
        assert(weight(cs, only, 0) == cs[i].1) by {
            let none = Seq::new(n, |j: int| false);
            lemma_weight_subset(cs, none, only, 0);
            lemma_weight_only(cs, i, 0);
        }
        assert(feasible(cs, m, 0, used)) by {
            assert forall|j1: int, j2: int|
                0 <= j1 < j2 < n && #[trigger] m[j1] && #[trigger] m[j2] implies compatible(
                cs[j1].0@,
                cs[j2].0@,
            ) by {
                if j1 == i {
                    lemma_compatible_symmetric(cs[j2].0@, cs[j1].0@);
                } else if j2 == i {
                } else {
                    assert(r[j1] && r[j2]);
                }
            }
        }
    }
}

/// The selection of candidate `i` alone weighs its weight.
pub proof fn lemma_weight_only(cs: Seq<Candidate>, i: int, from: int)
    requires
        0 <= from <= i < cs.len(),
    ensures
        weight(cs, Seq::new(cs.len(), |j: int| j == i), from) == cs[i].1,
    decreases cs.len() - from,
{
    let only = Seq::new(cs.len(), |j: int| j == i);
    if from < i {
        lemma_weight_only(cs, i, from + 1);
    } else {
        let none = Seq::new(cs.len(), |j: int| false);
        lemma_weight_suffix(cs, only, none, from + 1);
        lemma_weight_zero(cs, from + 1);
    }
}

/// The empty selection weighs nothing.
pub proof fn lemma_weight_zero(cs: Seq<Candidate>, from: int)
    requires
        0 <= from,
    ensures
        weight(cs, Seq::new(cs.len(), |j: int| false), from) == 0,
    decreases cs.len() - from,
{
    if from < cs.len() {
        lemma_weight_zero(cs, from + 1);
    }
}

/// A feasible selection that takes candidate `index` stays feasible from the next
/// position on beside `held`: the slots in `used` and those that candidate uses.
pub proof fn lemma_feasible_after_taking(cs: Seq<Candidate>, m: Seq<bool>, index: int, used: Set<int>, held: Set<int>)
    requires
        0 <= index < cs.len(),
        feasible(cs, m, index, used),
        m[index],
        forall|i: int|
            #[trigger] held.contains(i) <==> (used.contains(i) || exists|k: int|
                0 <= k < cs[index].0@.len() && cs[index].0@[k] as int == i),
    ensures
        feasible(cs, m, index + 1, held),
{
    let n = cs.len();
    assert forall|j: int| index + 1 <= j < n && #[trigger] m[j] implies free_of(cs[j].0@, held) by {
        assert(compatible(cs[index].0@, cs[j].0@));
        assert(free_of(cs[j].0@, used));
        assert forall|k: int| 0 <= k < cs[j].0@.len() implies !held.contains(#[trigger] cs[j].0@[k] as int) by {
            let i = cs[j].0@[k] as int;
            if exists|k1: int| 0 <= k1 < cs[index].0@.len() && cs[index].0@[k1] as int == i {
                let k1 = choose|k1: int| 0 <= k1 < cs[index].0@.len() && cs[index].0@[k1] as int == i;
                assert(cs[index].0@[k1] != cs[j].0@[k]);
            }
        }
    }
}

/// Whether none of the slots in `res` is held in `used`.
fn is_free(res: &Vec<u8>, used: BitMap) -> (r: bool)
    requires
        forall|k: int| 0 <= k < res.len() ==> #[trigger] res[k] < 128,
    ensures
        r == free_of(res@, used@),
{
    let mut k: usize = 0;
    while k < res.len()
        invariant
            k <= res.len(),
            forall|i: int| 0 <= i < res.len() ==> #[trigger] res[i] < 128,
            forall|i: int| 0 <= i < k ==> !used@.contains(#[trigger] res@[i] as int),
        decreases res.len() - k,
    {
        if used.get(res[k]) {
            return false;
        }
        k = k + 1;
    }
    true
}

/// `used` with every slot in `res` marked as held.
pub(crate) fn acquire(res: &Vec<u8>, used: BitMap) -> (r: BitMap)
    requires
        forall|k: int| 0 <= k < res.len() ==> #[trigger] res[k] < 128,
    ensures
        forall|i: int|
            #[trigger] r@.contains(i) <==> (used@.contains(i) || exists|k: int|
                0 <= k < res.len() && res@[k] as int == i),
{
    let mut r = used;
    let mut k: usize = 0;
    while k < res.len()
        invariant
            k <= res.len(),
            forall|i: int| 0 <= i < res.len() ==> #[trigger] res[i] < 128,
            forall|i: int|
                #[trigger] r@.contains(i) <==> (used@.contains(i) || exists|j: int|
                    0 <= j < k && res@[j] as int == i),
        decreases res.len() - k,
    {
        let ghost before = r@;
        r.set(res[k], true);
        proof {
            assert forall|i: int| #[trigger] r@.contains(i) <==> (used@.contains(i) || exists|j: int|
                0 <= j < k + 1 && res@[j] as int == i) by {
                if i == res@[k as int] as int {
                    assert(0 <= k < k + 1 && res@[k as int] as int == i);
                } else {
                    assert(r@.contains(i) == before.contains(i));
                    if exists|j: int| 0 <= j < k + 1 && res@[j] as int == i {
                        let j = choose|j: int| 0 <= j < k + 1 && res@[j] as int == i;
                        assert(j < k);
                    }
                }
            }
        }
        k = k + 1;
    }
    r
}

/// The best selection among the candidates from position `index` on, beside the slots
/// already held in `sensors_used`: the returned marks (none before `index`) form a
/// feasible selection whose weight, also returned, no feasible selection exceeds.
/// Where taking and leaving a candidate weigh the same, it is taken.
fn task_schedule_rec(tasks: &Vec<Candidate>, index: usize, sensors_used: BitMap) -> (r: (
    Vec<bool>,
    u128,
))
    requires
        index <= tasks.len(),
        slots_fit(tasks@),
    ensures
        r.0.len() == tasks.len(),
        forall|j: int| 0 <= j < index ==> !r.0[j],
        feasible(tasks@, r.0@, index as int, sensors_used@),
        r.1 == weight(tasks@, r.0@, index as int),
        forall|m: Seq<bool>|
            feasible(tasks@, m, index as int, sensors_used@) ==> weight(tasks@, m, index as int)
                <= r.1,
        forall|m: Seq<bool>|
            feasible(tasks@, m, index as int, sensors_used@) && weight(tasks@, m, index as int) == r.1
                ==> prefers(r.0@, m, index as int),
    decreases tasks.len() - index,
{
    let n = tasks.len();
    if index == n {
        let mut none: Vec<bool> = Vec::new();
        let mut k: usize = 0;
        while k < n
            invariant
                k <= n,
                n == tasks.len(),
                none.len() == k,
                forall|j: int| 0 <= j < k ==> !none[j],
            decreases n - k,
        {
            none.push(false);
            k = k + 1;
        }
        return (none, 0);
    }
    let ghost cs = tasks@;
    let res = &tasks[index].0;
    assert(forall|k: int| 0 <= k < res.len() ==> #[trigger] res[k] < 128 && cs[index as int].0@[k]
        == res[k]);
    let (unmarked, unmarked_weight) = task_schedule_rec(tasks, index + 1, sensors_used);
    proof {
        lemma_weight_bound(cs, unmarked@, index + 1);
    }
    if !is_free(res, sensors_used) {
        proof {
            assert forall|m: Seq<bool>| feasible(cs, m, index as int, sensors_used@) implies weight(
                cs,
                m,
                index as int,
            ) <= unmarked_weight by {
                assert(!m[index as int]);
                assert(feasible(cs, m, index + 1, sensors_used@));
            }
            assert forall|m: Seq<bool>|
                feasible(cs, m, index as int, sensors_used@) && weight(cs, m, index as int) == unmarked_weight implies prefers(
                unmarked@,
                m,
                index as int,
            ) by {
                assert(!m[index as int]);
                assert(feasible(cs, m, index + 1, sensors_used@));
                assert(prefers(unmarked@, m, index + 1));
            }
        }
        return (unmarked, unmarked_weight);
    }
    let held = acquire(res, sensors_used);
    let (mut marked, marked_rest) = task_schedule_rec(tasks, index + 1, held);
    let ghost rest_mask = marked@;
    marked.set(index, true);
    proof {
        lemma_weight_suffix(cs, rest_mask, marked@, index + 1);
        lemma_weight_bound(cs, rest_mask, index + 1);
        assert((n - (index + 1)) * (u64::MAX as int) + u64::MAX < 0x1_0000_0000_0000_0000_0000_0000_0000_0000)
            by (nonlinear_arith)
            requires
                n <= usize::MAX,
                usize::MAX < 0x1_0000_0000_0000_0000,
                index < n,
        ;
    }
    let marked_weight = marked_rest + tasks[index].1 as u128;
    proof {
        // the marked selection is feasible from `index` on
        assert forall|j: int| index <= j < n && #[trigger] marked@[j] implies free_of(
            cs[j].0@,
            sensors_used@,
        ) by {
            if j > index {
                assert(free_of(cs[j].0@, held@));
                assert forall|k: int| 0 <= k < cs[j].0@.len() implies !sensors_used@.contains(
                    #[trigger] cs[j].0@[k] as int,
                ) by {
                    assert(!held@.contains(cs[j].0@[k] as int));
                }
            }
        }
        assert forall|j1: int, j2: int|
            index <= j1 < j2 < n && #[trigger] marked@[j1] && #[trigger] marked@[j2] implies compatible(
            cs[j1].0@,
            cs[j2].0@,
        ) by {
            if j1 == index {
                assert(free_of(cs[j2].0@, held@));
                assert forall|k1: int, k2: int|
                    0 <= k1 < cs[j1].0@.len() && 0 <= k2 < cs[j2].0@.len() implies #[trigger] cs[j1].0@[k1]
                    != #[trigger] cs[j2].0@[k2] by {
                    assert(held@.contains(res@[k1] as int));
                    assert(!held@.contains(cs[j2].0@[k2] as int));
                }
            }
        }
        assert(marked_weight == weight(cs, marked@, index as int));
    }
    proof {
        // every feasible selection weighs at most the better of the two branches
        assert forall|m: Seq<bool>| feasible(cs, m, index as int, sensors_used@) implies weight(
            cs,
            m,
            index as int,
        ) <= (if marked_weight >= unmarked_weight {
            marked_weight
        } else {
            unmarked_weight
        }) by {
            if m[index as int] {
                lemma_feasible_after_taking(cs, m, index as int, sensors_used@, held@);
                assert(feasible(cs, m, index + 1, held@));
            } else {
                assert(feasible(cs, m, index + 1, sensors_used@));
            }
        }
    }
    if marked_weight >= unmarked_weight {
        proof {
            assert forall|m: Seq<bool>|
                feasible(cs, m, index as int, sensors_used@) && weight(cs, m, index as int) == marked_weight implies prefers(
                marked@,
                m,
                index as int,
            ) by {
                if m[index as int] {
                    assert(feasible(cs, m, index + 1, held@)) by {
                        lemma_feasible_after_taking(cs, m, index as int, sensors_used@, held@);
                    }
                    assert(weight(cs, m, index + 1) == marked_rest);
                    assert(prefers(rest_mask, m, index + 1));
                    assert forall|j: int|
                        index <= j < marked@.len() && marked@[j] != m[j] && (forall|i: int|
                            index <= i < j ==> #[trigger] marked@[i] == m[i]) implies #[trigger] marked@[j] by {
                        assert(j != index);
                        assert forall|i: int| index + 1 <= i < j implies #[trigger] rest_mask[i] == m[i] by {
                            assert(marked@[i] == m[i]);
                        }
                        assert(rest_mask[j] != m[j]);
                    }
                }
            }
        }
        (marked, marked_weight)
    } else {
        proof {
            assert forall|m: Seq<bool>|
                feasible(cs, m, index as int, sensors_used@) && weight(cs, m, index as int) == unmarked_weight implies prefers(
                unmarked@,
                m,
                index as int,
            ) by {
                if m[index as int] {
                    assert(feasible(cs, m, index + 1, held@)) by {
                        lemma_feasible_after_taking(cs, m, index as int, sensors_used@, held@);
                    }
                    assert(weight(cs, m, index + 1) <= marked_rest);
                } else {
                    assert(feasible(cs, m, index + 1, sensors_used@));
                    assert(prefers(unmarked@, m, index + 1));
                }
            }
        }
        (unmarked, unmarked_weight)
    }
}

/// Chooses which candidates run now: a selection of candidates that can all run at once
/// beside the slots held in `sensors_used` (none uses a held slot, no two share a slot),
/// of the greatest total weight among all such selections. Where several such selections
/// weigh the same, the one returned takes the candidate at the first position where they
/// differ: taking a candidate wins ties against leaving it.
pub fn task_schedule(tasks: &Vec<Candidate>, sensors_used: BitMap) -> (r: Vec<bool>)
    requires
        slots_fit(tasks@),
    ensures
        feasible(tasks@, r@, 0, sensors_used@),
        forall|m: Seq<bool>|
            feasible(tasks@, m, 0, sensors_used@) ==> weight(tasks@, m, 0) <= weight(
                tasks@,
                r@,
                0,
            ),
        forall|m: Seq<bool>|
            feasible(tasks@, m, 0, sensors_used@) && weight(tasks@, m, 0) == weight(tasks@, r@, 0) ==> prefers(
                r@,
                m,
                0,
            ),
{
    let (r, _) = task_schedule_rec(tasks, 0, sensors_used);
    r
}

} // verus!
