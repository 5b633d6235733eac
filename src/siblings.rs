use vstd::prelude::*;
use crate::tasks::{Task, TaskView};
use crate::log::chars_of;
use crate::forest::view_of_all;

verus! {

broadcast use vstd::std_specs::vec::group_vec_axioms;

/// Text order, as `String`'s ordering has it: the first differing character
/// decides, and a proper prefix sorts first.
pub open spec fn text_lt(a: Seq<char>, b: Seq<char>) -> bool
    decreases a.len(),
{
    if a.len() == 0 {
        b.len() > 0
    } else if b.len() == 0 {
        false
    } else if (a[0] as u32) < (b[0] as u32) {
        true
    } else if a[0] == b[0] {
        text_lt(a.drop_first(), b.drop_first())
    } else {
        false
    }
}

/// The order of sibling tasks: by start, then by finish, then by text.
pub open spec fn sibling_lt(a: TaskView, b: TaskView) -> bool {
    ||| a.start() < b.start()
    ||| a.start() == b.start() && a.finish() < b.finish()
    ||| a.start() == b.start() && a.finish() == b.finish() && text_lt(a.text, b.text)
}

/// The first index of `sorted` whose task does not sort before `x`, or `sorted.len()`.
pub open spec fn first_not_before(sorted: Seq<TaskView>, x: TaskView) -> int
    decreases sorted.len(),
{
    if sorted.len() == 0 {
        0
    } else if !sibling_lt(sorted[0], x) {
        0
    } else {
        1 + first_not_before(sorted.drop_first(), x)
    }
}

/// `s` sorted in sibling order, tasks that tie keeping their relative order.
pub open spec fn sibling_sort(s: Seq<TaskView>) -> Seq<TaskView>
    decreases s.len(),
{
    if s.len() == 0 {
        s
    } else {
        let rest = sibling_sort(s.drop_first());
        rest.insert(first_not_before(rest, s[0]), s[0])
    }
}

/// No task of `s` sorts before one that comes earlier.
pub open spec fn siblings_in_order(s: Seq<TaskView>) -> bool {
    forall|i: int, j: int| 0 <= i < j < s.len() ==> !sibling_lt(#[trigger] s[j], #[trigger] s[i])
}

/// Siblings in order come by start: an earlier task never starts later, and
/// of two that start together the earlier never finishes later.
pub proof fn lemma_siblings_by_start(s: Seq<TaskView>)
    requires
        siblings_in_order(s),
    ensures
        forall|i: int, j: int| 0 <= i < j < s.len() ==> {
            &&& (#[trigger] s[i]).start() <= (#[trigger] s[j]).start()
            &&& s[i].start() == s[j].start() ==> s[i].finish() <= s[j].finish()
        },
{
    assert forall|i: int, j: int| 0 <= i < j < s.len() implies {
        &&& (#[trigger] s[i]).start() <= (#[trigger] s[j]).start()
        &&& s[i].start() == s[j].start() ==> s[i].finish() <= s[j].finish()
    } by {
        assert(!sibling_lt(s[j], s[i]));
    }
}

proof fn lemma_text_lt_irreflexive(a: Seq<char>)
    ensures
        !text_lt(a, a),
    decreases a.len(),
{
    if a.len() > 0 {
        lemma_text_lt_irreflexive(a.drop_first());
    }
}

proof fn lemma_text_lt_transitive(a: Seq<char>, b: Seq<char>, c: Seq<char>)
    requires
        text_lt(a, b),
        text_lt(b, c),
    ensures
        text_lt(a, c),
    decreases a.len(),
{
    if a.len() > 0 && b.len() > 0 && c.len() > 0 && a[0] == b[0] && b[0] == c[0] {
        lemma_text_lt_transitive(a.drop_first(), b.drop_first(), c.drop_first());
    }
}

proof fn lemma_text_lt_total(a: Seq<char>, b: Seq<char>)
    ensures
        text_lt(a, b) || text_lt(b, a) || a == b,
    decreases a.len(),
{
    if a.len() > 0 && b.len() > 0 && a[0] == b[0] {
        lemma_text_lt_total(a.drop_first(), b.drop_first());
        if a.drop_first() == b.drop_first() {
            assert(a =~= seq![a[0]] + a.drop_first());
            assert(b =~= seq![b[0]] + b.drop_first());
        }
    } else if a.len() == 0 && b.len() == 0 {
        assert(a =~= b);
    } else if a.len() > 0 && b.len() > 0 {
        vstd::utf8::char_u32_cast(a[0], a[0] as u32);
        vstd::utf8::char_u32_cast(b[0], b[0] as u32);
    }
}

/// Sibling order is a strict order: never `a` before itself, and transitive.
pub proof fn lemma_sibling_lt_strict(a: TaskView, b: TaskView, c: TaskView)
    ensures
        !sibling_lt(a, a),
        sibling_lt(a, b) && sibling_lt(b, c) ==> sibling_lt(a, c),
{
    lemma_text_lt_irreflexive(a.text);
    if sibling_lt(a, b) && sibling_lt(b, c) && a.start() == c.start() && a.finish() == c.finish()
        && text_lt(a.text, b.text) && text_lt(b.text, c.text) {
        lemma_text_lt_transitive(a.text, b.text, c.text);
    }
}

/// "Does not sort before" is transitive too: with `a` no later than `b` and
/// `b` no later than `c`, `a` is no later than `c`.
pub proof fn lemma_sibling_le_transitive(a: TaskView, b: TaskView, c: TaskView)
    requires
        !sibling_lt(b, a),
        !sibling_lt(c, b),
    ensures
        !sibling_lt(c, a),
{
    lemma_text_lt_total(a.text, b.text);
    lemma_text_lt_total(b.text, c.text);
    lemma_text_lt_irreflexive(a.text);
    lemma_text_lt_irreflexive(b.text);
    if text_lt(a.text, b.text) && text_lt(b.text, c.text) {
        lemma_text_lt_transitive(a.text, b.text, c.text);
    }
    if text_lt(c.text, a.text) && text_lt(a.text, b.text) {
        lemma_text_lt_transitive(c.text, a.text, b.text);
    }
    if text_lt(b.text, c.text) && text_lt(c.text, a.text) {
        lemma_text_lt_transitive(b.text, c.text, a.text);
    }
}

proof fn lemma_first_not_before(sorted: Seq<TaskView>, x: TaskView, i: int)
    requires
        0 <= i <= sorted.len(),
        forall|j: int| 0 <= j < i ==> sibling_lt(#[trigger] sorted[j], x),
        i < sorted.len() ==> !sibling_lt(sorted[i], x),
    ensures
        first_not_before(sorted, x) == i,
    decreases i,
{
    if i > 0 {
        assert(sibling_lt(sorted[0], x));
        let rest = sorted.drop_first();
        assert forall|j: int| 0 <= j < i - 1 implies sibling_lt(#[trigger] rest[j], x) by {
            assert(rest[j] == sorted[j + 1]);
        }
        lemma_first_not_before(rest, x, i - 1);
    }
}

proof fn lemma_first_not_before_facts(sorted: Seq<TaskView>, x: TaskView)
    ensures
        0 <= first_not_before(sorted, x) <= sorted.len(),
        forall|j: int| 0 <= j < first_not_before(sorted, x) ==> sibling_lt(#[trigger] sorted[j], x),
        first_not_before(sorted, x) < sorted.len() ==> !sibling_lt(sorted[first_not_before(sorted, x)], x),
    decreases sorted.len(),
{
    if sorted.len() > 0 && sibling_lt(sorted[0], x) {
        let rest = sorted.drop_first();
        lemma_first_not_before_facts(rest, x);
        assert forall|j: int| 0 <= j < first_not_before(sorted, x) implies sibling_lt(#[trigger] sorted[j], x) by {
            if j > 0 {
                assert(sorted[j] == rest[j - 1]);
            }
        }
    }
}

/// Sorting siblings puts them in sibling order, and takes in nothing new:
/// every task of the result is a task of the input.
pub proof fn lemma_sibling_sort(s: Seq<TaskView>)
    ensures
        sibling_sort(s).len() == s.len(),
        siblings_in_order(sibling_sort(s)),
        forall|i: int| 0 <= i < s.len() ==> exists|j: int| 0 <= j < s.len() && #[trigger] sibling_sort(s)[i] == s[j],
    decreases s.len(),
{
    if s.len() > 0 {
        let tail = s.drop_first();
        let rest = sibling_sort(tail);
        lemma_sibling_sort(tail);
        let x = s[0];
        let p = first_not_before(rest, x);
        lemma_first_not_before_facts(rest, x);
        let r = rest.insert(p, x);
        assert forall|i: int, j: int| 0 <= i < j < r.len() implies !sibling_lt(#[trigger] r[j], #[trigger] r[i]) by {
            if j < p {
                assert(r[i] == rest[i] && r[j] == rest[j]);
            } else if j == p {
                assert(r[i] == rest[i]);
                lemma_sibling_lt_strict(x, rest[i], x);
            } else if i < p {
                assert(r[i] == rest[i] && r[j] == rest[j - 1]);
            } else if i == p {
                assert(r[j] == rest[j - 1]);
                if j - 1 > p {
                    assert(!sibling_lt(rest[j - 1], rest[p]));
                    lemma_sibling_le_transitive(x, rest[p], rest[j - 1]);
                }
            } else {
                assert(r[i] == rest[i - 1] && r[j] == rest[j - 1]);
            }
        }
        assert forall|i: int| 0 <= i < s.len() implies exists|j: int| 0 <= j < s.len() && #[trigger] sibling_sort(s)[i] == s[j] by {
            if i == p {
                assert(r[i] == s[0]);
            } else {
                let ii = if i < p { i } else { i - 1 };
                assert(r[i] == rest[ii]);
                let j = choose|j: int| 0 <= j < tail.len() && rest[ii] == tail[j];
                assert(tail[j] == s[j + 1]);
            }
        }
    }
}

/// Whether text `a` sorts strictly before text `b`.
pub fn text_less(a: &String, b: &String) -> (r: bool)
    ensures
        r == text_lt(a@, b@),
{
    let x = chars_of(a.as_str());
    let y = chars_of(b.as_str());
    let mut i: usize = 0;
    assert(x@.skip(0) =~= x@);
    assert(y@.skip(0) =~= y@);
    while i < x.len() && i < y.len()
        invariant
            i <= x@.len(),
            i <= y@.len(),
            x@ == a@,
            y@ == b@,
            text_lt(a@, b@) == text_lt(x@.skip(i as int), y@.skip(i as int)),
        decreases x@.len() - i,
    {
        let c = x[i];
        let d = y[i];
        assert(x@.skip(i as int)[0] == c);
        assert(y@.skip(i as int)[0] == d);
        if (c as u32) < (d as u32) {
            return true;
        }
        if c != d {
            return false;
        }
        assert(x@.skip(i as int).drop_first() =~= x@.skip(i + 1));
        assert(y@.skip(i as int).drop_first() =~= y@.skip(i + 1));
        i = i + 1;
    }
    i == x.len() && i < y.len()
}

/// Whether task `a` sorts strictly before task `b` among siblings.
pub fn sibling_less(a: &Task, b: &Task) -> (r: bool)
    ensures
        r == sibling_lt(a@, b@),
{
    let (sa, sb) = (a.start(), b.start());
    if sa != sb {
        return sa < sb;
    }
    let (fa, fb) = (a.finish(), b.finish());
    if fa != fb {
        return fa < fb;
    }
    text_less(&a.text, &b.text)
}

/// Sorts sibling tasks by start, then finish, then text, keeping the relative
/// order of tasks that tie.
pub fn sort_siblings(v: Vec<Task>) -> (r: Vec<Task>)
    ensures
        view_of_all(r@) == sibling_sort(view_of_all(v@)),
{
    let ghost orig = view_of_all(v@);
    let mut rest = v;
    let mut out: Vec<Task> = Vec::new();
    assert(orig.skip(orig.len() as int) =~= Seq::<TaskView>::empty());
    assert(view_of_all(out@) =~= Seq::<TaskView>::empty());
    assert(view_of_all(rest@) =~= orig.take(rest@.len() as int));
    while rest.len() > 0
        invariant
            rest@.len() <= orig.len(),
            view_of_all(rest@) == orig.take(rest@.len() as int),
            view_of_all(out@) == sibling_sort(orig.skip(rest@.len() as int)),
        decreases rest@.len(),
    {
        let ghost n = rest@.len() as int;
        let ghost before = rest@;
        let x = rest.pop().unwrap();
        assert(rest@ =~= before.take(n - 1));
        assert(x@ == view_of_all(before)[n - 1]);
        assert(view_of_all(rest@) =~= orig.take(n - 1)) by {
            assert forall|k: int| 0 <= k < n - 1 implies view_of_all(rest@)[k] == orig.take(n - 1)[k] by {
                assert(view_of_all(before)[k] == orig.take(n)[k]);
            }
        }
        assert(orig.take(n)[n - 1] == x@);
        assert(orig.skip(n - 1).drop_first() =~= orig.skip(n));
        assert(orig.skip(n - 1)[0] == x@);
        let mut i: usize = 0;
        while i < out.len() && sibling_less(&out[i], &x)
            invariant
                i <= out@.len(),
                forall|j: int| 0 <= j < i ==> sibling_lt(#[trigger] out@[j]@, x@),
            decreases out@.len() - i,
        {
            i = i + 1;
        }
        proof {
            assert forall|j: int| 0 <= j < i implies sibling_lt(#[trigger] view_of_all(out@)[j], x@) by {
                assert(sibling_lt(out@[j]@, x@));
            }
            lemma_first_not_before(view_of_all(out@), x@, i as int);
        }
        let ghost out_before = out@;
        out.insert(i, x);
        assert(view_of_all(out@) =~= view_of_all(out_before).insert(i as int, x@));
    }
    assert(orig.skip(0) =~= orig);
    out
}

} // verus!
