use vstd::prelude::*;
use crate::work_times::WorkTimes;
use crate::siblings::{sibling_sort, sort_siblings, siblings_in_order, lemma_sibling_sort};
use crate::tasks::{Task, TaskView};
use crate::sorting::{StartKeyed, sort_by_key, sort_by_start_stable, lemma_sort_by_key_from_input, lemma_sort_by_key_sorted, keys_ascending, views};
use crate::layout::layout;

verus! {

broadcast use vstd::std_specs::vec::group_vec_axioms;

/// Index of the first of `subs` that `t` is a subtask of; `subs.len()` when there is none.
pub open spec fn first_container(subs: Seq<TaskView>, t: TaskView) -> int
    decreases subs.len(),
{
    if subs.len() == 0 {
        0
    } else if t.is_subtask_of(subs[0]) {
        0
    } else {
        1 + first_container(subs.drop_first(), t)
    }
}

/// `root` with `t` placed in it: under the first child that contains it, and
/// so on down; where no child contains it, appended as a child of its own and
/// the children sorted again in sibling order (start, finish, text).
pub open spec fn inserted(root: TaskView, t: TaskView) -> TaskView
    decreases root,
{
    let k = first_container(root.subs, t);
    if 0 <= k < root.subs.len() {
        TaskView { subs: root.subs.update(k, inserted(root.subs[k], t)), ..root }
    } else {
        TaskView { subs: sibling_sort(root.subs.push(t)), ..root }
    }
}

proof fn lemma_first_container(subs: Seq<TaskView>, t: TaskView, i: int)
    requires
        0 <= i <= subs.len(),
        forall|j: int| 0 <= j < i ==> !t.is_subtask_of(#[trigger] subs[j]),
        i < subs.len() ==> t.is_subtask_of(subs[i]),
    ensures
        first_container(subs, t) == i,
    decreases i,
{
    if i > 0 {
        assert(!t.is_subtask_of(subs[0]));
        let rest = subs.drop_first();
        assert forall|j: int| 0 <= j < i - 1 implies !t.is_subtask_of(#[trigger] rest[j]) by {
            assert(rest[j] == subs[j + 1]);
        }
        lemma_first_container(rest, t, i - 1);
    }
}

/// The views of a list of tasks.
pub open spec fn view_of_all(ts: Seq<Task>) -> Seq<TaskView> {
    Seq::new(ts.len(), |i: int| ts[i]@)
}

/// The index of the first of `subs` that `t` is a subtask of, or `subs.len()`.
fn container_index(subs: &Vec<Task>, t: &Task) -> (r: usize)
    ensures
        r == first_container(view_of_all(subs@), t@),
        r <= subs@.len(),
{
    let mut i: usize = 0;
    while i < subs.len()
        invariant
            i <= subs@.len(),
            forall|j: int| 0 <= j < i ==> !t@.is_subtask_of(#[trigger] subs@[j]@),
        decreases subs@.len() - i,
    {
        if t.is_subtask_of(&subs[i]) {
            proof {
                lemma_first_container(view_of_all(subs@), t@, i as int);
            }
            return i;
        }
        i = i + 1;
    }
    proof {
        lemma_first_container(view_of_all(subs@), t@, i as int);
    }
    i
}

/// Places `t` in the tree under `parent`: below the first child that contains
/// it, recursively, or, where no child does, as a new child, after which the
/// children are sorted by start, then finish, then text.
pub fn push_subtask(parent: &mut Task, t: Task)
    ensures
        final(parent)@ == inserted(old(parent)@, t@),
    decreases old(parent)@,
{
    let ghost old_view = parent@;
    let ghost tv = t@;
    assert(old_view.subs =~= view_of_all(parent.subs@));
    let i = container_index(&parent.subs, &t);
    if i < parent.subs.len() {
        let ghost old_subs = parent.subs@;
        assert(old_subs[i as int]@ == old_view.subs[i as int]);
        assert(decreases_to!(old_view => old_view.subs[i as int]));
        push_subtask(&mut parent.subs[i], t);
        assert(parent.subs@ == old_subs.update(i as int, parent.subs@[i as int]));
        assert(parent@.subs =~= old_view.subs.update(i as int, inserted(old_view.subs[i as int], tv)));
    } else {
        let mut subs: Vec<Task> = Vec::new();
        core::mem::swap(&mut subs, &mut parent.subs);
        subs.push(t);
        assert(view_of_all(subs@) =~= old_view.subs.push(tv));
        let sorted = sort_siblings(subs);
        parent.subs = sorted;
        assert(parent@.subs =~= view_of_all(parent.subs@));
    }
}

/// Every child in the tree lies within its parent: each node is a subtask of
/// the node it hangs under.
pub open spec fn nested(t: TaskView) -> bool
    decreases t,
{
    forall|i: int|
        0 <= i < t.subs.len() ==> (#[trigger] t.subs[i]).is_subtask_of(t) && nested(t.subs[i])
}

/// Placing a task keeps every node within its parent, provided the task fits
/// under the node it is placed in and its own subtree is nested.
pub proof fn lemma_inserted_nested(root: TaskView, t: TaskView)
    requires
        nested(root),
        nested(t),
        t.is_subtask_of(root),
    ensures
        nested(inserted(root, t)),
        inserted(root, t).intervals == root.intervals,
    decreases root,
{
    let k = first_container(root.subs, t);
    lemma_first_container_found(root.subs, t);
    let r = inserted(root, t);
    if 0 <= k < root.subs.len() {
        assert(nested(root.subs[k]));
        lemma_inserted_nested(root.subs[k], t);
        assert forall|i: int| 0 <= i < r.subs.len() implies (#[trigger] r.subs[i]).is_subtask_of(r)
            && nested(r.subs[i]) by {
            if i != k {
                assert(r.subs[i] == root.subs[i]);
            }
        }
    } else {
        let all = root.subs.push(t);
        lemma_sibling_sort(all);
        assert forall|i: int| 0 <= i < r.subs.len() implies (#[trigger] r.subs[i]).is_subtask_of(r)
            && nested(r.subs[i]) by {
            let j = choose|j: int| 0 <= j < all.len() && sibling_sort(all)[i] == all[j];
            if j < root.subs.len() {
                assert(all[j] == root.subs[j]);
            }
        }
    }
}

proof fn lemma_first_container_found(subs: Seq<TaskView>, t: TaskView)
    ensures
        0 <= first_container(subs, t) <= subs.len(),
        first_container(subs, t) < subs.len() ==> t.is_subtask_of(subs[first_container(subs, t)]),
    decreases subs.len(),
{
    if subs.len() > 0 && !t.is_subtask_of(subs[0]) {
        lemma_first_container_found(subs.drop_first(), t);
    }
}

/// Every node's children come in sibling order (start, then finish, then
/// text), all the way down.
pub open spec fn children_sorted(t: TaskView) -> bool
    decreases t,
{
    &&& siblings_in_order(t.subs)
    &&& forall|i: int| 0 <= i < t.subs.len() ==> children_sorted(#[trigger] t.subs[i])
}

proof fn lemma_inserted_keeps_node(root: TaskView, t: TaskView)
    ensures
        inserted(root, t).intervals == root.intervals,
        inserted(root, t).text == root.text,
{
}

/// Placing a task keeps every node's children in sibling order, provided they
/// were in order below the node that receives it, and are in order within the
/// task placed.
pub proof fn lemma_inserted_sorted(root: TaskView, t: TaskView)
    requires
        children_sorted(root),
        children_sorted(t),
    ensures
        children_sorted(inserted(root, t)),
    decreases root,
{
    let k = first_container(root.subs, t);
    lemma_first_container_found(root.subs, t);
    let r = inserted(root, t);
    if 0 <= k < root.subs.len() {
        assert(children_sorted(root.subs[k]));
        lemma_inserted_sorted(root.subs[k], t);
        lemma_inserted_keeps_node(root.subs[k], t);
        assert forall|i: int, j: int| 0 <= i < j < r.subs.len() implies !crate::siblings::sibling_lt(
            #[trigger] r.subs[j],
            #[trigger] r.subs[i],
        ) by {
            assert(r.subs[i].intervals == root.subs[i].intervals && r.subs[i].text == root.subs[i].text);
            assert(r.subs[j].intervals == root.subs[j].intervals && r.subs[j].text == root.subs[j].text);
            assert(!crate::siblings::sibling_lt(root.subs[j], root.subs[i]));
        }
        assert forall|i: int| 0 <= i < r.subs.len() implies children_sorted(#[trigger] r.subs[i]) by {
            if i != k {
                assert(r.subs[i] == root.subs[i]);
            }
        }
    } else {
        let all = root.subs.push(t);
        lemma_sibling_sort(all);
        assert forall|i: int| 0 <= i < r.subs.len() implies children_sorted(#[trigger] r.subs[i]) by {
            let j = choose|j: int| 0 <= j < all.len() && sibling_sort(all)[i] == all[j];
            if j < root.subs.len() {
                assert(all[j] == root.subs[j]);
            }
        }
    }
}

/// In a built forest every node's children come in sibling order (start, then
/// finish, then text), as long as the subtrees handed in were in order
/// themselves (a task with no subtasks always is).
pub proof fn lemma_forest_sorted(tasks: Seq<Task>)
    requires
        forall|i: int| 0 <= i < tasks.len() ==> children_sorted(#[trigger] tasks[i]@),
    ensures
        children_sorted(forest_of(tasks)),
{
    let key = |v: TaskView| v.start();
    let input = view_of_all(tasks);
    let order = sort_by_key(input, key);
    lemma_sort_by_key_from_input(input, key);
    assert forall|i: int| 0 <= i < order.len() implies children_sorted(#[trigger] order[i]) by {
        let j = choose|j: int| 0 <= j < input.len() && order[i] == input[j];
        assert(children_sorted(tasks[j]@));
    }
    lemma_grown_sorted(order);
}

proof fn lemma_grown_sorted(ts: Seq<TaskView>)
    requires
        forall|i: int| 0 <= i < ts.len() ==> children_sorted(#[trigger] ts[i]),
    ensures
        children_sorted(grown(root_view(), ts)),
    decreases ts.len(),
{
    if ts.len() > 0 {
        let before = ts.drop_last();
        assert forall|i: int| 0 <= i < before.len() implies children_sorted(#[trigger] before[i]) by {
            assert(before[i] == ts[i]);
        }
        lemma_grown_sorted(before);
        assert(children_sorted(ts.last()));
        lemma_inserted_sorted(grown(root_view(), before), ts.last());
    } else {
        assert(children_sorted(root_view()));
    }
}

/// The root that every forest grows from: one span over all instants, no text.
pub open spec fn root_view() -> TaskView {
    TaskView {
        intervals: seq![WorkTimes { start: i32::MIN, end: i32::MAX }],
        text: Seq::empty(),
        subs: Seq::empty(),
    }
}

/// `root` after placing each of `ts` in turn, first to last.
pub open spec fn grown(root: TaskView, ts: Seq<TaskView>) -> TaskView
    decreases ts.len(),
{
    if ts.len() == 0 {
        root
    } else {
        inserted(grown(root, ts.drop_last()), ts.last())
    }
}

/// The forest that `tasks` make: sorted by start, then placed one by one
/// under the root.
pub open spec fn forest_of(tasks: Seq<Task>) -> TaskView {
    forest_of_views(view_of_all(tasks))
}

/// The forest that tasks with these views make.
pub open spec fn forest_of_views(tasks: Seq<TaskView>) -> TaskView {
    grown(root_view(), sort_by_key(tasks, |v: TaskView| v.start()))
}

/// Sorts `tasks` by start and places them, one after the other, in a tree under
/// a root that spans all instants.
pub fn build_forest(tasks: Vec<Task>) -> (r: Task)
    ensures
        r@ == forest_of(tasks@),
{
    let ghost tasks_view = tasks@;
    assert(views(tasks_view) =~= view_of_all(tasks_view));
    assert((|x: TaskView| Task::key_of(x)) =~= (|v: TaskView| v.start()));
    let sorted = sort_by_start_stable(tasks);
    let ghost order = view_of_all(sorted@);
    assert(order =~= views(sorted@));
    let mut reversed: Vec<Task> = Vec::new();
    let mut src = sorted;
    while src.len() > 0
        invariant
            src@.len() + reversed@.len() == order.len(),
            view_of_all(src@) == order.take(src@.len() as int),
            forall|k: int| 0 <= k < reversed@.len() ==> (#[trigger] reversed@[k])@ == order[order.len() - 1 - k],
        decreases src@.len(),
    {
        let ghost n = src@.len() as int;
        let ghost before = src@;
        let t = src.pop().unwrap();
        assert(src@ =~= before.take(n - 1));
        assert(t@ == view_of_all(before)[n - 1]);
        assert(view_of_all(before)[n - 1] == order.take(n)[n - 1]);
        reversed.push(t);
        assert(view_of_all(src@) =~= order.take(n - 1)) by {
            assert forall|k: int| 0 <= k < n - 1 implies view_of_all(src@)[k] == order.take(n - 1)[k] by {
                assert(view_of_all(before)[k] == order.take(n)[k]);
            }
        }
    }
    let mut root = Task {
        work_times: vec![WorkTimes { start: i32::MIN, end: i32::MAX }],
        text: String::new(),
        subs: Vec::new(),
    };
    assert(root@.subs =~= Seq::<TaskView>::empty());
    assert(root@.intervals =~= root_view().intervals);
    assert(root@.text =~= root_view().text);
    assert(root@ == root_view());
    assert(order.take(0) =~= Seq::<TaskView>::empty());
    while reversed.len() > 0
        invariant
            reversed@.len() <= order.len(),
            forall|k: int| 0 <= k < reversed@.len() ==> (#[trigger] reversed@[k])@ == order[order.len() - 1 - k],
            root@ == grown(root_view(), order.take(order.len() - reversed@.len())),
        decreases reversed@.len(),
    {
        let ghost done = order.len() - reversed@.len();
        let t = reversed.pop().unwrap();
        assert(t@ == order[done]);
        assert(order.take(done + 1).drop_last() =~= order.take(done));
        push_subtask(&mut root, t);
    }
    assert(order.take(order.len() as int) =~= order);
    root
}

/// Every task in a built forest lies within the task it hangs under, as long
/// as the subtrees handed in were nested themselves (a task with no subtasks
/// always is).
pub proof fn lemma_forest_nested(tasks: Seq<Task>)
    requires
        forall|i: int| 0 <= i < tasks.len() ==> nested(#[trigger] tasks[i]@),
    ensures
        nested(forest_of(tasks)),
{
    let key = |v: TaskView| v.start();
    let input = view_of_all(tasks);
    let order = sort_by_key(input, key);
    lemma_sort_by_key_from_input(input, key);
    assert forall|i: int| 0 <= i < order.len() implies nested(#[trigger] order[i]) by {
        let j = choose|j: int| 0 <= j < input.len() && order[i] == input[j];
        assert(nested(tasks[j]@));
    }
    lemma_grown_nested(order);
}

/// Building is reproducible: tasks with the same spans and texts give the
/// same forest, and every node lands at the same depth.
pub proof fn lemma_forest_deterministic(a: Seq<Task>, b: Seq<Task>)
    requires
        view_of_all(a) == view_of_all(b),
    ensures
        forest_of(a) == forest_of(b),
        layout(forest_of(a), 0) == layout(forest_of(b), 0),
{
}

/// Tasks handed in already in ascending order of start are placed in exactly
/// that order.
pub proof fn lemma_forest_in_given_order(tasks: Seq<Task>)
    requires
        keys_ascending(view_of_all(tasks), |v: TaskView| v.start()),
    ensures
        forest_of(tasks) == grown(root_view(), view_of_all(tasks)),
{
    lemma_sort_by_key_sorted(view_of_all(tasks), |v: TaskView| v.start());
}

proof fn lemma_grown_nested(ts: Seq<TaskView>)
    requires
        forall|i: int| 0 <= i < ts.len() ==> nested(#[trigger] ts[i]),
    ensures
        nested(grown(root_view(), ts)),
        grown(root_view(), ts).intervals == root_view().intervals,
    decreases ts.len(),
{
    if ts.len() > 0 {
        let before = ts.drop_last();
        assert forall|i: int| 0 <= i < before.len() implies nested(#[trigger] before[i]) by {
            assert(before[i] == ts[i]);
        }
        lemma_grown_nested(before);
        let g = grown(root_view(), before);
        let t = ts.last();
        assert(nested(t));
        assert forall|i: int| 0 <= i < t.intervals.len() implies crate::tasks::span_within(
            #[trigger] t.intervals[i],
            g.intervals,
        ) by {
            let w = g.intervals[0];
            assert(w == WorkTimes { start: i32::MIN, end: i32::MAX });
            assert(w.start <= t.intervals[i].start && t.intervals[i].end <= w.end);
        }
        lemma_inserted_nested(g, t);
    } else {
        assert(nested(root_view()));
    }
}

} // verus!
