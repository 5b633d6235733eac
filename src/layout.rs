use vstd::prelude::*;
use crate::tasks::{Task, TaskView, single};
use crate::sorting::{StartKeyed, sort_by_key, sort_by_start_stable, views};

verus! {

broadcast use vstd::std_specs::vec::group_vec_axioms;

/// `subs`, each at depth `d`.
pub open spec fn at_depth(subs: Seq<TaskView>, d: int) -> Seq<(TaskView, int)> {
    Seq::new(subs.len(), |i: int| (subs[i], d))
}

/// The rows for the subtree of `t` seen from depth `d`, where only the first
/// `n` children have had their own subtrees laid out: all children of `t` at
/// depth `d`, then the rows under the first child at depth `d + 1`, then
/// those under the second, and so on.
pub open spec fn layout_upto(t: TaskView, d: int, n: int) -> Seq<(TaskView, int)>
    decreases t, n,
{
    if n <= 0 || n > t.subs.len() {
        at_depth(t.subs, d)
    } else {
        layout_upto(t, d, n - 1) + layout_upto(t.subs[n - 1], d + 1, t.subs[n - 1].subs.len() as int)
    }
}

/// Every node below `t`, each paired with its depth counted from `d` for the
/// children of `t`.
pub open spec fn layout(t: TaskView, d: int) -> Seq<(TaskView, int)> {
    layout_upto(t, d, t.subs.len() as int)
}

/// How many levels of nodes lie below `t`, counting only the first `n` children.
pub open spec fn height_upto(t: TaskView, n: int) -> nat
    decreases t, n,
{
    if n <= 0 || n > t.subs.len() {
        0
    } else {
        let below = 1 + height_upto(t.subs[n - 1], t.subs[n - 1].subs.len() as int);
        let before = height_upto(t, n - 1);
        if below > before {
            below as nat
        } else {
            before
        }
    }
}

/// How many levels of nodes lie below `t`.
pub open spec fn height(t: TaskView) -> nat {
    height_upto(t, t.subs.len() as int)
}

proof fn lemma_height_child(t: TaskView, n: int, i: int)
    requires
        0 <= i < n <= t.subs.len(),
    ensures
        height(t.subs[i]) + 1 <= height_upto(t, n),
    decreases n,
{
    if i < n - 1 {
        lemma_height_child(t, n - 1, i);
    }
}

proof fn lemma_height_upto_bound(t: TaskView, n: int, limit: int)
    requires
        0 <= n <= t.subs.len(),
    ensures
        height_upto(t, n) <= limit <==> (0 <= limit && forall|i: int|
            0 <= i < n ==> height(#[trigger] t.subs[i]) + 1 <= limit),
    decreases n,
{
    if n > 0 {
        lemma_height_upto_bound(t, n - 1, limit);
        if height_upto(t, n) <= limit {
            assert forall|i: int| 0 <= i < n implies height(#[trigger] t.subs[i]) + 1 <= limit by {
                if i == n - 1 {
                } else {
                    assert(height_upto(t, n - 1) <= limit);
                }
            }
        }
    }
}

/// Whether no node lies more than `limit` levels below `t`.
pub fn height_within(t: &Task, limit: usize) -> (r: bool)
    ensures
        r == (height(t@) <= limit),
    decreases t@,
{
    let ghost tv = t@;
    proof {
        lemma_height_upto_bound(tv, tv.subs.len() as int, limit as int);
    }
    if t.subs.len() == 0 {
        return true;
    }
    if limit == 0 {
        assert(height(tv.subs[0]) + 1 > 0);
        return false;
    }
    let mut i: usize = 0;
    while i < t.subs.len()
        invariant
            i <= t.subs@.len(),
            tv == t@,
            limit >= 1,
            forall|j: int| 0 <= j < i ==> height(#[trigger] tv.subs[j]) + 1 <= limit,
        decreases t.subs@.len() - i,
    {
        proof {
            assert(decreases_to!(tv => tv.subs[i as int]));
        }
        if !height_within(&t.subs[i], limit - 1) {
            proof {
                lemma_height_upto_bound(tv, tv.subs.len() as int, limit as int);
                assert(height(tv.subs[i as int]) + 1 > limit);
            }
            return false;
        }
        i = i + 1;
    }
    proof {
        lemma_height_upto_bound(tv, tv.subs.len() as int, limit as int);
    }
    true
}

/// Whether laying out `t` from depth `indent` keeps every depth within a `usize`.
pub fn fits_depth(t: &Task, indent: usize) -> (r: bool)
    ensures
        r == (indent + height(t@) <= usize::MAX),
{
    height_within(t, usize::MAX - indent)
}

/// The rows of a list of `(task, depth)` pairs, as views.
pub open spec fn rows_view(rows: Seq<(&Task, usize)>) -> Seq<(TaskView, int)> {
    Seq::new(rows.len(), |i: int| (rows[i].0@, rows[i].1 as int))
}

/// Every node below `t`, each with its depth: the children of `t` at `indent`,
/// their children at `indent + 1`, and so on.
pub fn indents<'a>(t: &'a Task, indent: usize) -> (r: Vec<(&'a Task, usize)>)
    requires
        indent + height(t@) <= usize::MAX,
    ensures
        rows_view(r@) == layout(t@, indent as int),
    decreases t@,
{
    let ghost tv = t@;
    let mut acc: Vec<(&'a Task, usize)> = Vec::new();
    let mut i: usize = 0;
    while i < t.subs.len()
        invariant
            i <= t.subs@.len(),
            tv == t@,
            rows_view(acc@) == at_depth(tv.subs, indent as int).take(i as int),
        decreases t.subs@.len() - i,
    {
        let ghost before = acc@;
        acc.push((&t.subs[i], indent));
        assert(rows_view(acc@) =~= at_depth(tv.subs, indent as int).take(i + 1)) by {
            assert(rows_view(acc@) =~= rows_view(before).push((t.subs@[i as int]@, indent as int)));
        }
        i = i + 1;
    }
    assert(at_depth(tv.subs, indent as int).take(i as int) =~= layout_upto(tv, indent as int, 0));
    let mut j: usize = 0;
    while j < t.subs.len()
        invariant
            j <= t.subs@.len(),
            tv == t@,
            indent + height(tv) <= usize::MAX,
            rows_view(acc@) == layout_upto(tv, indent as int, j as int),
        decreases t.subs@.len() - j,
    {
        let child = &t.subs[j];
        proof {
            lemma_height_child(tv, tv.subs.len() as int, j as int);
            assert(decreases_to!(tv => tv.subs[j as int]));
        }
        let mut below = indents(child, indent + 1);
        let ghost before = acc@;
        let ghost moved = below@;
        acc.append(&mut below);
        assert(rows_view(acc@) =~= rows_view(before) + rows_view(moved));
        j = j + 1;
    }
    acc
}

/// The display rows that the first `m` spans of `row`'s task give: one per
/// span that starts at `cutoff` or later, at the row's depth.
pub open spec fn row_pieces(row: (TaskView, usize), m: int, cutoff: int) -> Seq<(TaskView, usize)>
    decreases m,
{
    if m <= 0 {
        Seq::empty()
    } else {
        let before = row_pieces(row, m - 1, cutoff);
        if row.0.intervals[m - 1].start >= cutoff {
            before.push((single(row.0, m - 1), row.1))
        } else {
            before
        }
    }
}

/// The display rows of the first `n` of `rows`, before sorting.
pub open spec fn pieces_upto(rows: Seq<(TaskView, usize)>, n: int, cutoff: int) -> Seq<(TaskView, usize)>
    decreases n,
{
    if n <= 0 {
        Seq::empty()
    } else {
        pieces_upto(rows, n - 1, cutoff) + row_pieces(rows[n - 1], rows[n - 1].0.intervals.len() as int, cutoff)
    }
}

/// The start of a display row's task.
pub open spec fn row_start(row: (TaskView, usize)) -> int {
    row.0.start()
}

/// What is shown for `rows`: one row per span, each with its task's text and
/// depth, leaving out spans that start before `cutoff`, sorted by start with
/// ties kept in the order they came in.
pub open spec fn display_rows(rows: Seq<(TaskView, usize)>, cutoff: int) -> Seq<(TaskView, usize)> {
    sort_by_key(pieces_upto(rows, rows.len() as int, cutoff), |row: (TaskView, usize)| row_start(row))
}

/// Turns laid-out rows into display rows: one per span, dropping those that
/// start before `cutoff`, sorted by start.
pub fn finalize_for_display(rows: &Vec<(&Task, usize)>, cutoff: i64) -> (r: Vec<(Task, usize)>)
    ensures
        views(r@) == display_rows(views(rows@), cutoff as int),
{
    let ghost input = views(rows@);
    let mut kept: Vec<(Task, usize)> = Vec::new();
    let mut i: usize = 0;
    while i < rows.len()
        invariant
            i <= rows@.len(),
            input == views(rows@),
            views(kept@) == pieces_upto(input, i as int, cutoff as int),
        decreases rows@.len() - i,
    {
        let (t, depth) = rows[i];
        let ghost row = input[i as int];
        assert(row == (t@, depth));
        let ghost base = views(kept@);
        let mut k: usize = 0;
        assert(views(kept@) =~= base + row_pieces(row, 0, cutoff as int));
        while k < t.work_times.len()
            invariant
                k <= t@.intervals.len(),
                row == (t@, depth),
                views(kept@) == base + row_pieces(row, k as int, cutoff as int),
            decreases t@.intervals.len() - k,
        {
            let w = t.work_times[k];
            let ghost before = kept@;
            if w.start as i64 >= cutoff {
                kept.push((t.piece(k), depth));
                assert(views(kept@) =~= views(before).push((single(t@, k as int), depth)));
            }
            k = k + 1;
        }
        assert(pieces_upto(input, i + 1, cutoff as int) == pieces_upto(input, i as int, cutoff as int)
            + row_pieces(input[i as int], input[i as int].0.intervals.len() as int, cutoff as int));
        i = i + 1;
    }
    assert((|x: (TaskView, usize)| <(Task, usize) as StartKeyed>::key_of(x)) =~= (|row: (TaskView, usize)| row_start(row)));
    sort_by_start_stable(kept)
}

} // verus!
