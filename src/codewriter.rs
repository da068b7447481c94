use vstd::prelude::*;

verus! {

/// A task in a unit's emitted sequence: its name, its cycles and the resources it holds.
#[derive(Debug, Clone)]
pub struct FunctionCall {
    pub fn_identifier: String,
    pub cycles: u16,
    pub args: Vec<String>,
}

/// An idle gap of the given length in a unit's emitted sequence.
#[derive(Debug, Clone)]
pub struct Delay {
    pub call_time_ms: u64,
}

/// One entry of a unit's emitted sequence.
#[derive(Debug, Clone)]
pub enum CodeTask {
    FunctionCall(FunctionCall),
    Delay(Delay),
}

/// A unit's emitted sequence, in execution order, with the start of an idle gap that
/// has not been closed yet.
#[derive(Debug, Clone)]
pub struct CodeWriter {
    pub tasks: Vec<CodeTask>,
    pub delayed_at: Option<u64>,
}

/// The task entries of `s`, in order, without the gaps.
pub open spec fn calls(s: Seq<CodeTask>) -> Seq<FunctionCall>
    decreases s.len(),
{
    if s.len() == 0 {
        Seq::empty()
    } else {
        match s.last() {
            CodeTask::FunctionCall(f) => calls(s.drop_last()).push(f),
            CodeTask::Delay(_) => calls(s.drop_last()),
        }
    }
}

/// The gap entry that closing an idle gap opened at `delayed_at` adds at time `now`:
/// one `Delay` of the elapsed time, or nothing when no gap is open or none elapsed.
pub open spec fn gap(delayed_at: Option<u64>, now: u64) -> Seq<CodeTask> {
    match delayed_at {
        Some(t) => if t < now {
            seq![CodeTask::Delay(Delay { call_time_ms: (now - t) as u64 })]
        } else {
            Seq::empty()
        },
        None => Seq::empty(),
    }
}

/// Every idle gap in `s` is positive, no two gaps stand next to each other, and `s` does
/// not end with a gap.
pub open spec fn gaps_ok(s: Seq<CodeTask>) -> bool {
    &&& forall|i: int| 0 <= i < s.len() && #[trigger] s[i] is Delay ==> s[i]->Delay_0.call_time_ms > 0
    &&& forall|i: int| 0 <= i < s.len() - 1 && #[trigger] s[i] is Delay ==> !(s[i + 1] is Delay)
    &&& s.len() > 0 ==> !(s.last() is Delay)
}

/// Closing a gap and appending a task entry keeps the gaps well formed.
pub proof fn lemma_gaps_append(s: Seq<CodeTask>, d: Option<u64>, now: u64, f: FunctionCall)
    requires
        gaps_ok(s),
        d matches Some(t) ==> t <= now,
    ensures
        gaps_ok(s + gap(d, now) + seq![CodeTask::FunctionCall(f)]),
{
    let g = gap(d, now);
    let r = s + g + seq![CodeTask::FunctionCall(f)];
    assert forall|i: int| 0 <= i < r.len() - 1 && #[trigger] r[i] is Delay implies !(r[i + 1] is Delay) by {
        if i < s.len() - 1 {
            assert(r[i] == s[i] && r[i + 1] == s[i + 1]);
        } else if i == s.len() - 1 {
            assert(r[i] == s.last());
        }
    }
    assert forall|i: int| 0 <= i < r.len() && #[trigger] r[i] is Delay implies r[i]->Delay_0.call_time_ms > 0 by {
        if i < s.len() {
            assert(r[i] == s[i]);
        }
    }
}

/// Appending a gap and a task entry adds exactly that task to the task entries.
pub proof fn lemma_calls_append(s: Seq<CodeTask>, g: Seq<CodeTask>, f: FunctionCall)
    requires
        g.len() == 0 || (g.len() == 1 && g[0] is Delay),
    ensures
        calls(s + g + seq![CodeTask::FunctionCall(f)]) == calls(s).push(f),
{
    let t = s + g + seq![CodeTask::FunctionCall(f)];
    assert(t.drop_last() =~= s + g);
    assert(t.last() == CodeTask::FunctionCall(f));
    assert(calls(t) == calls(s + g).push(f));
    if g.len() == 1 {
        assert((s + g).drop_last() =~= s);
        assert((s + g).last() == g[0]);
        assert(calls(s + g) == calls(s));
    } else {
        assert(s + g =~= s);
    }
}

impl CodeWriter {
    /// An empty sequence with no open gap.
    pub fn new() -> (r: CodeWriter)
        ensures
            r.tasks@.len() == 0,
            r.delayed_at is None,
    {
        CodeWriter { tasks: Vec::new(), delayed_at: None }
    }

    /// Appends `task`, started at `current_time_ms`. An open idle gap is closed first:
    /// it becomes one `Delay` entry of the time elapsed since it opened (none when no
    /// time elapsed).
    pub fn append(&mut self, task: CodeTask, current_time_ms: u64)
        requires
            old(self).delayed_at matches Some(t) ==> t <= current_time_ms,
        ensures
            final(self).delayed_at is None,
            final(self).tasks@ == old(self).tasks@ + gap(old(self).delayed_at, current_time_ms)
                + seq![task],
    {
        match self.delayed_at {
            Some(t) => {
                if t < current_time_ms {
                    self.tasks.push(CodeTask::Delay(Delay { call_time_ms: current_time_ms - t }));
                }
                self.delayed_at = None;
            },
            None => {},
        }
        self.tasks.push(task);
        assert(self.tasks@ =~= old(self).tasks@ + gap(old(self).delayed_at, current_time_ms) + seq![
            task,
        ]);
    }

    /// Opens an idle gap at `current_time_ms`, unless one is already open: repeated
    /// calls count the gap from the first.
    pub fn start_delay(&mut self, current_time_ms: u64)
        ensures
            final(self).tasks@ == old(self).tasks@,
            final(self).delayed_at == (match old(self).delayed_at {
                Some(t) => Some(t),
                None => Some(current_time_ms),
            }),
    {
        match self.delayed_at {
            Some(_) => {},
            None => {
                self.delayed_at = Some(current_time_ms);
            },
        }
    }
}

} // verus!
