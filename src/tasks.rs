use vstd::prelude::*;
use crate::work_times::WorkTimes;

verus! {

broadcast use vstd::std_specs::vec::group_vec_axioms;

/// A named piece of work: the spans in which it was done, and the tasks
/// nested inside it.
#[derive(Debug, PartialEq, Eq, PartialOrd, Ord)]
pub struct Task {
    pub work_times: Vec<WorkTimes>,
    pub text: String,
    pub subs: Vec<Task>,
}

/// What a task holds, as mathematical values.
pub struct TaskView {
    pub intervals: Seq<WorkTimes>,
    pub text: Seq<char>,
    pub subs: Seq<TaskView>,
}

/// The view of `t`: its spans, its text, and the views of its subtasks.
pub open spec fn view_of(t: Task) -> TaskView
    decreases t,
{
    TaskView {
        intervals: t.work_times@,
        text: t.text@,
        subs: Seq::new(
            t.subs@.len(),
            |i: int|
                if 0 <= i < t.subs@.len() {
                    view_of(t.subs@[i])
                } else {
                    TaskView { intervals: Seq::empty(), text: Seq::empty(), subs: Seq::empty() }
                },
        ),
    }
}

/// The earliest start among `spans`; `i32::MAX` when there is none.
pub open spec fn earliest_start(spans: Seq<WorkTimes>) -> int
    decreases spans.len(),
{
    if spans.len() == 0 {
        i32::MAX as int
    } else {
        let rest = earliest_start(spans.drop_last());
        if spans.last().start <= rest {
            spans.last().start as int
        } else {
            rest
        }
    }
}

/// The latest end among `spans`; `i32::MIN` when there is none.
pub open spec fn latest_end(spans: Seq<WorkTimes>) -> int
    decreases spans.len(),
{
    if spans.len() == 0 {
        i32::MIN as int
    } else {
        let rest = latest_end(spans.drop_last());
        if spans.last().end > rest {
            spans.last().end as int
        } else {
            rest
        }
    }
}

/// The sum of the durations of `spans`.
pub open spec fn total_duration(spans: Seq<WorkTimes>) -> int
    decreases spans.len(),
{
    if spans.len() == 0 {
        0
    } else {
        total_duration(spans.drop_last()) + spans.last().spec_duration()
    }
}

/// Every duration of `spans`, and every running total of them, fits in an `i32`.
pub open spec fn durations_fit(spans: Seq<WorkTimes>) -> bool {
    forall|k: int|
        0 <= k < spans.len() ==> {
            &&& i32::MIN <= #[trigger] spans[k].spec_duration() <= i32::MAX
            &&& i32::MIN <= total_duration(spans.take(k + 1)) <= i32::MAX
        }
}

/// `w` lies inside one of `outer`.
pub open spec fn span_within(w: WorkTimes, outer: Seq<WorkTimes>) -> bool {
    exists|j: int| 0 <= j < outer.len() && outer[j].start <= w.start && w.end <= #[trigger] outer[j].end
}

/// Every span of `inner` lies inside some span of `outer`.
pub open spec fn covers(inner: Seq<WorkTimes>, outer: Seq<WorkTimes>) -> bool {
    forall|i: int| 0 <= i < inner.len() ==> span_within(#[trigger] inner[i], outer)
}

impl TaskView {
    /// When the task first started.
    pub open spec fn start(self) -> int {
        earliest_start(self.intervals)
    }

    /// When the task last finished.
    pub open spec fn finish(self) -> int {
        latest_end(self.intervals)
    }

    /// How long the task took in all.
    pub open spec fn duration(self) -> int {
        total_duration(self.intervals)
    }

    /// Each span of the task lies within some span of `other`.
    pub open spec fn is_subtask_of(self, other: TaskView) -> bool {
        covers(self.intervals, other.intervals)
    }
}

/// `t` cut down to its `k`-th span: same text, that span alone, no subtasks.
pub open spec fn single(t: TaskView, k: int) -> TaskView {
    TaskView { intervals: seq![t.intervals[k]], text: t.text, subs: Seq::empty() }
}

/// A task with spans starts at the earliest of their starts and finishes at
/// the latest of their ends.
pub proof fn lemma_start_finish_bounds(spans: Seq<WorkTimes>)
    requires
        spans.len() > 0,
    ensures
        exists|i: int| 0 <= i < spans.len() && earliest_start(spans) == #[trigger] spans[i].start,
        forall|i: int| 0 <= i < spans.len() ==> earliest_start(spans) <= #[trigger] spans[i].start,
        exists|i: int| 0 <= i < spans.len() && latest_end(spans) == #[trigger] spans[i].end,
        forall|i: int| 0 <= i < spans.len() ==> latest_end(spans) >= #[trigger] spans[i].end,
    decreases spans.len(),
{
    let rest = spans.drop_last();
    let n = spans.len() - 1;
    if rest.len() == 0 {
        assert(earliest_start(spans) == spans[0].start);
        assert(latest_end(spans) == spans[0].end);
    } else {
        lemma_start_finish_bounds(rest);
        assert forall|i: int| 0 <= i < n implies #[trigger] spans[i] == rest[i] by {}
        if spans[n].start <= earliest_start(rest) {
            assert(earliest_start(spans) == spans[n].start);
        } else {
            let i = choose|i: int| 0 <= i < rest.len() && earliest_start(rest) == #[trigger] rest[i].start;
            assert(earliest_start(spans) == spans[i].start);
        }
        if spans[n].end > latest_end(rest) {
            assert(latest_end(spans) == spans[n].end);
        } else {
            let i = choose|i: int| 0 <= i < rest.len() && latest_end(rest) == #[trigger] rest[i].end;
            assert(latest_end(spans) == spans[i].end);
        }
        assert forall|i: int| 0 <= i < spans.len() implies earliest_start(spans) <= #[trigger] spans[i].start by {
            if i < n {
                assert(spans[i] == rest[i]);
            }
        }
        assert forall|i: int| 0 <= i < spans.len() implies latest_end(spans) >= #[trigger] spans[i].end by {
            if i < n {
                assert(spans[i] == rest[i]);
            }
        }
    }
}

/// A task with no spans takes no time, starts at `i32::MAX`, finishes at
/// `i32::MIN`, and is a subtask of every task.
pub proof fn lemma_empty_task(t: TaskView, other: TaskView)
    requires
        t.intervals.len() == 0,
    ensures
        t.duration() == 0,
        t.start() == i32::MAX,
        t.finish() == i32::MIN,
        t.is_subtask_of(other),
{
}

impl View for Task {
    type V = TaskView;

    open spec fn view(&self) -> TaskView {
        view_of(*self)
    }
}

impl Default for Task {
    /// A task with no spans, an empty text and no subtasks.
    fn default() -> (r: Task)
        ensures
            r@ == (TaskView { intervals: Seq::empty(), text: Seq::empty(), subs: Seq::empty() }),
    {
        let r = Task { work_times: Vec::new(), text: String::new(), subs: Vec::new() };
        assert(r@.subs =~= Seq::<TaskView>::empty());
        r
    }
}

impl Clone for Task {
    /// A copy of the whole tree: same spans, text and subtasks.
    fn clone(&self) -> (r: Task)
        ensures
            r@ == self@,
        decreases self@,
    {
        let mut subs: Vec<Task> = Vec::new();
        let mut i: usize = 0;
        while i < self.subs.len()
            invariant
                i <= self.subs@.len(),
                subs@.len() == i,
                forall|k: int| 0 <= k < i ==> (#[trigger] subs@[k])@ == self.subs@[k]@,
            decreases self.subs@.len() - i,
        {
            proof {
                assert(self@.subs[i as int] == self.subs@[i as int]@);
                assert(decreases_to!(self@ => self@.subs[i as int]));
            }
            let copy = self.subs[i].clone();
            subs.push(copy);
            i = i + 1;
        }
        let mut spans: Vec<WorkTimes> = Vec::new();
        let mut j: usize = 0;
        while j < self.work_times.len()
            invariant
                j <= self.work_times@.len(),
                spans@ == self.work_times@.take(j as int),
            decreases self.work_times@.len() - j,
        {
            spans.push(self.work_times[j]);
            j = j + 1;
            assert(spans@ =~= self.work_times@.take(j as int));
        }
        assert(self.work_times@.take(j as int) =~= self.work_times@);
        let r = Task { work_times: spans, text: self.text.clone(), subs };
        assert(r@.subs =~= self@.subs);
        r
    }
}

impl Task {
    /// The earliest start of the task's spans; `i32::MAX` when it has none.
    pub fn start(&self) -> (r: i32)
        ensures
            r == self@.start(),
    {
        let mut min: i32 = i32::MAX;
        let mut i: usize = 0;
        while i < self.work_times.len()
            invariant
                i <= self.work_times@.len(),
                min == earliest_start(self.work_times@.take(i as int)),
            decreases self.work_times@.len() - i,
        {
            assert(self.work_times@.take(i as int) =~= self.work_times@.take(i + 1).drop_last());
            let w = self.work_times[i];
            if w.start <= min {
                min = w.start;
            }
            i = i + 1;
        }
        assert(self.work_times@.take(i as int) =~= self.work_times@);
        min
    }

    /// The latest end of the task's spans; `i32::MIN` when it has none.
    pub fn finish(&self) -> (r: i32)
        ensures
            r == self@.finish(),
    {
        let mut max: i32 = i32::MIN;
        let mut i: usize = 0;
        while i < self.work_times.len()
            invariant
                i <= self.work_times@.len(),
                max == latest_end(self.work_times@.take(i as int)),
            decreases self.work_times@.len() - i,
        {
            assert(self.work_times@.take(i as int) =~= self.work_times@.take(i + 1).drop_last());
            let w = self.work_times[i];
            if w.end > max {
                max = w.end;
            }
            i = i + 1;
        }
        assert(self.work_times@.take(i as int) =~= self.work_times@);
        max
    }

    /// The total time spent on the task: the sum of its spans' durations.
    pub fn duration(&self) -> (r: i32)
        requires
            durations_fit(self@.intervals),
        ensures
            r == self@.duration(),
    {
        let mut sum: i32 = 0;
        let mut i: usize = 0;
        while i < self.work_times.len()
            invariant
                i <= self.work_times@.len(),
                durations_fit(self.work_times@),
                sum == total_duration(self.work_times@.take(i as int)),
            decreases self.work_times@.len() - i,
        {
            assert(self.work_times@.take(i as int) =~= self.work_times@.take(i + 1).drop_last());
            let w = self.work_times[i];
            assert(i32::MIN <= self.work_times@[i as int].spec_duration() <= i32::MAX);
            let d = w.duration();
            sum = sum + d;
            i = i + 1;
        }
        assert(self.work_times@.take(i as int) =~= self.work_times@);
        sum
    }

    /// The total time spent on the task, or `None` when a span's duration or
    /// a running total of them does not fit in an `i32`.
    pub fn try_duration(&self) -> (r: Option<i32>)
        ensures
            r == (if durations_fit(self@.intervals) {
                Some(self@.duration() as i32)
            } else {
                None
            }),
    {
        let mut sum: i32 = 0;
        let mut i: usize = 0;
        while i < self.work_times.len()
            invariant
                i <= self.work_times@.len(),
                sum == total_duration(self.work_times@.take(i as int)),
                durations_fit(self.work_times@.take(i as int)),
            decreases self.work_times@.len() - i,
        {
            let ghost pre = self.work_times@.take(i as int);
            let ghost next = self.work_times@.take(i + 1);
            assert(pre =~= next.drop_last());
            let w = self.work_times[i];
            let d = w.end as i64 - w.start as i64;
            if d < i32::MIN as i64 || d > i32::MAX as i64 {
                assert(!durations_fit(self.work_times@)) by {
                    assert(self.work_times@[i as int].spec_duration() == d);
                }
                return None;
            }
            let total = sum as i64 + d;
            if total < i32::MIN as i64 || total > i32::MAX as i64 {
                assert(!durations_fit(self.work_times@)) by {
                    assert(self.work_times@.take(i + 1) =~= next);
                    assert(total_duration(next) == total);
                }
                return None;
            }
            sum = total as i32;
            assert(durations_fit(next)) by {
                assert forall|k: int| 0 <= k < next.len() implies {
                    &&& i32::MIN <= #[trigger] next[k].spec_duration() <= i32::MAX
                    &&& i32::MIN <= total_duration(next.take(k + 1)) <= i32::MAX
                } by {
                    if k < i {
                        assert(next[k] == pre[k]);
                        assert(next.take(k + 1) =~= pre.take(k + 1));
                    } else {
                        assert(next.take(k + 1) =~= next);
                    }
                }
            }
            i = i + 1;
        }
        assert(self.work_times@.take(i as int) =~= self.work_times@);
        Some(sum)
    }

    /// Whether each of the spans of `self` lies inside some span of `other`.
    pub fn is_subtask_of(&self, other: &Task) -> (r: bool)
        ensures
            r == self@.is_subtask_of(other@),
    {
        let mut i: usize = 0;
        while i < self.work_times.len()
            invariant
                i <= self.work_times@.len(),
                forall|k: int| 0 <= k < i ==> span_within(#[trigger] self.work_times@[k], other.work_times@),
            decreases self.work_times@.len() - i,
        {
            let w = self.work_times[i];
            let mut found = false;
            let mut j: usize = 0;
            while j < other.work_times.len()
                invariant
                    j <= other.work_times@.len(),
                    w == self.work_times@[i as int],
                    !found ==> forall|k: int|
                        0 <= k < j ==> !(other.work_times@[k].start <= w.start && w.end
                            <= #[trigger] other.work_times@[k].end),
                    found ==> span_within(w, other.work_times@),
                decreases other.work_times@.len() - j,
            {
                let o = other.work_times[j];
                if w.start >= o.start && w.end <= o.end {
                    found = true;
                }
                j = j + 1;
            }
            if !found {
                return false;
            }
            i = i + 1;
        }
        true
    }

    /// The task cut down to its `k`-th span: same text, that span alone, no subtasks.
    pub fn piece(&self, k: usize) -> (r: Task)
        requires
            k < self@.intervals.len(),
        ensures
            r@ == single(self@, k as int),
    {
        let mut spans: Vec<WorkTimes> = Vec::new();
        spans.push(self.work_times[k]);
        let r = Task { work_times: spans, text: self.text.clone(), subs: Vec::new() };
        assert(r@.subs =~= Seq::<TaskView>::empty());
        assert(r@.intervals =~= seq![self@.intervals[k as int]]);
        r
    }

    /// One task per span, in order, each with the same text, that single
    /// span and no subtasks.
    pub fn explode(&self) -> (r: Vec<Task>)
        ensures
            r@.len() == self@.intervals.len(),
            forall|k: int| 0 <= k < r@.len() ==> (#[trigger] r@[k])@ == single(self@, k),
    {
        let mut out: Vec<Task> = Vec::new();
        let mut i: usize = 0;
        while i < self.work_times.len()
            invariant
                i <= self.work_times@.len(),
                out@.len() == i,
                forall|k: int| 0 <= k < i ==> (#[trigger] out@[k])@ == single(self@, k),
            decreases self.work_times@.len() - i,
        {
            out.push(self.piece(i));
            i = i + 1;
        }
        out
    }
}

} // verus!
