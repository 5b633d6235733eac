use vstd::prelude::*;
use crate::tasks::{Task, TaskView};

verus! {

broadcast use vstd::std_specs::vec::group_vec_axioms;

/// Things that are put in order by the instant at which they start.
pub trait StartKeyed: View + Sized {
    spec fn key_of(v: Self::V) -> int;

    fn start_key(&self) -> (r: i32)
        ensures
            r == Self::key_of(self@),
    ;
}

impl StartKeyed for Task {
    open spec fn key_of(v: TaskView) -> int {
        v.start()
    }

    fn start_key(&self) -> (r: i32) {
        self.start()
    }
}

impl StartKeyed for (Task, usize) {
    open spec fn key_of(v: (TaskView, usize)) -> int {
        v.0.start()
    }

    fn start_key(&self) -> (r: i32) {
        self.0.start()
    }
}

/// The views of the items of `s`.
pub open spec fn views<T: View>(s: Seq<T>) -> Seq<T::V> {
    Seq::new(s.len(), |i: int| s[i]@)
}

/// The first index of `sorted` whose key is at least `k`, or `sorted.len()`.
pub open spec fn first_at_or_after<V>(sorted: Seq<V>, key: spec_fn(V) -> int, k: int) -> int
    decreases sorted.len(),
{
    if sorted.len() == 0 {
        0
    } else if key(sorted[0]) >= k {
        0
    } else {
        1 + first_at_or_after(sorted.drop_first(), key, k)
    }
}

/// `s` sorted by `key`, items with equal keys keeping their relative order.
pub open spec fn sort_by_key<V>(s: Seq<V>, key: spec_fn(V) -> int) -> Seq<V>
    decreases s.len(),
{
    if s.len() == 0 {
        s
    } else {
        let rest = sort_by_key(s.drop_first(), key);
        rest.insert(first_at_or_after(rest, key, key(s[0])), s[0])
    }
}

/// The keys of `s` never decrease.
pub open spec fn keys_ascending<V>(s: Seq<V>, key: spec_fn(V) -> int) -> bool {
    forall|i: int, j: int| 0 <= i < j < s.len() ==> key(#[trigger] s[i]) <= key(#[trigger] s[j])
}

proof fn lemma_first_at_or_after<V>(sorted: Seq<V>, key: spec_fn(V) -> int, k: int, i: int)
    requires
        0 <= i <= sorted.len(),
        forall|j: int| 0 <= j < i ==> key(#[trigger] sorted[j]) < k,
        i < sorted.len() ==> key(sorted[i]) >= k,
    ensures
        first_at_or_after(sorted, key, k) == i,
    decreases i,
{
    if i > 0 {
        assert(key(sorted[0]) < k);
        let rest = sorted.drop_first();
        assert forall|j: int| 0 <= j < i - 1 implies key(#[trigger] rest[j]) < k by {
            assert(rest[j] == sorted[j + 1]);
        }
        lemma_first_at_or_after(rest, key, k, i - 1);
    }
}

proof fn lemma_first_at_or_after_facts<V>(sorted: Seq<V>, key: spec_fn(V) -> int, k: int)
    ensures
        0 <= first_at_or_after(sorted, key, k) <= sorted.len(),
        forall|j: int| 0 <= j < first_at_or_after(sorted, key, k) ==> key(#[trigger] sorted[j]) < k,
        first_at_or_after(sorted, key, k) < sorted.len() ==> key(sorted[first_at_or_after(sorted, key, k)]) >= k,
    decreases sorted.len(),
{
    if sorted.len() > 0 && key(sorted[0]) < k {
        let rest = sorted.drop_first();
        lemma_first_at_or_after_facts(rest, key, k);
        assert forall|j: int| 0 <= j < first_at_or_after(sorted, key, k) implies key(#[trigger] sorted[j]) < k by {
            if j > 0 {
                assert(sorted[j] == rest[j - 1]);
            }
        }
    }
}

/// A stable sort yields its items in order of their keys, as many as it was given.
pub proof fn lemma_sort_by_key_ascending<V>(s: Seq<V>, key: spec_fn(V) -> int)
    ensures
        keys_ascending(sort_by_key(s, key), key),
        sort_by_key(s, key).len() == s.len(),
    decreases s.len(),
{
    if s.len() > 0 {
        let rest = sort_by_key(s.drop_first(), key);
        lemma_sort_by_key_ascending(s.drop_first(), key);
        let k = key(s[0]);
        let p = first_at_or_after(rest, key, k);
        lemma_first_at_or_after_facts(rest, key, k);
        let r = rest.insert(p, s[0]);
        assert forall|i: int, j: int| 0 <= i < j < r.len() implies key(#[trigger] r[i]) <= key(#[trigger] r[j]) by {
            if j < p {
                assert(r[i] == rest[i] && r[j] == rest[j]);
            } else if j == p {
                assert(r[i] == rest[i]);
            } else if i < p {
                assert(r[i] == rest[i] && r[j] == rest[j - 1]);
            } else if i == p {
                assert(r[j] == rest[j - 1]);
                assert(key(rest[p]) >= k);
                assert(key(rest[p]) <= key(rest[j - 1]));
            } else {
                assert(r[i] == rest[i - 1] && r[j] == rest[j - 1]);
            }
        }
    }
}

/// Sorting takes nothing in from outside: every item of the result is an item
/// of the input.
pub proof fn lemma_sort_by_key_from_input<V>(s: Seq<V>, key: spec_fn(V) -> int)
    ensures
        sort_by_key(s, key).len() == s.len(),
        forall|i: int| 0 <= i < s.len() ==> exists|j: int| 0 <= j < s.len() && #[trigger] sort_by_key(s, key)[i] == s[j],
    decreases s.len(),
{
    if s.len() > 0 {
        let tail = s.drop_first();
        let rest = sort_by_key(tail, key);
        lemma_sort_by_key_from_input(tail, key);
        let p = first_at_or_after(rest, key, key(s[0]));
        lemma_first_at_or_after_facts(rest, key, key(s[0]));
        let r = rest.insert(p, s[0]);
        assert forall|i: int| 0 <= i < s.len() implies exists|j: int| 0 <= j < s.len() && #[trigger] sort_by_key(s, key)[i] == s[j] by {
            if i == p {
                assert(r[i] == s[0]);
            } else {
                let ii = if i < p { i } else { i - 1 };
                assert(r[i] == rest[ii]);
                let j = choose|j: int| 0 <= j < tail.len() && rest[ii] == tail[j];
                assert(tail[j] == s[j + 1]);
            }
        }
    }
}

/// Items that are already in order of their keys are left as they are.
pub proof fn lemma_sort_by_key_sorted<V>(s: Seq<V>, key: spec_fn(V) -> int)
    requires
        keys_ascending(s, key),
    ensures
        sort_by_key(s, key) == s,
    decreases s.len(),
{
    if s.len() > 0 {
        let tail = s.drop_first();
        assert forall|i: int, j: int| 0 <= i < j < tail.len() implies key(#[trigger] tail[i]) <= key(#[trigger] tail[j]) by {
            assert(tail[i] == s[i + 1] && tail[j] == s[j + 1]);
        }
        lemma_sort_by_key_sorted(tail, key);
        if tail.len() > 0 {
            assert(tail[0] == s[1]);
            assert(key(s[0]) <= key(s[1]));
        }
        lemma_first_at_or_after(tail, key, key(s[0]), 0);
        assert(tail.insert(0, s[0]) =~= s);
    }
}

/// Sorts `v` by start, keeping the relative order of items that start together.
pub fn sort_by_start_stable<T: StartKeyed>(v: Vec<T>) -> (r: Vec<T>)
    ensures
        views(r@) == sort_by_key(views(v@), |x: T::V| T::key_of(x)),
{
    let ghost key = |x: T::V| T::key_of(x);
    let ghost orig = views(v@);
    let mut rest = v;
    let mut out: Vec<T> = Vec::new();
    assert(orig.skip(orig.len() as int) =~= Seq::<T::V>::empty());
    assert(views(out@) =~= Seq::<T::V>::empty());
    assert(views(rest@) =~= orig.take(rest@.len() as int));
    while rest.len() > 0
        invariant
            rest@.len() <= orig.len(),
            views(rest@) == orig.take(rest@.len() as int),
            views(out@) == sort_by_key(orig.skip(rest@.len() as int), key),
            key == (|x: T::V| T::key_of(x)),
        decreases rest@.len(),
    {
        let ghost n = rest@.len() as int;
        let ghost before = rest@;
        let x = rest.pop().unwrap();
        assert(rest@ =~= before.take(n - 1));
        assert(x@ == views(before)[n - 1]);
        assert(views(rest@) =~= orig.take(n - 1)) by {
            assert forall|k: int| 0 <= k < n - 1 implies views(rest@)[k] == orig.take(n - 1)[k] by {
                assert(views(before)[k] == orig.take(n)[k]);
            }
        }
        assert(orig.take(n)[n - 1] == x@);
        assert(orig.skip(n - 1).drop_first() =~= orig.skip(n));
        assert(orig.skip(n - 1)[0] == x@);
        let k = x.start_key();
        let mut i: usize = 0;
        while i < out.len() && out[i].start_key() < k
            invariant
                i <= out@.len(),
                k == T::key_of(x@),
                forall|j: int| 0 <= j < i ==> T::key_of(#[trigger] out@[j]@) < k,
            decreases out@.len() - i,
        {
            i = i + 1;
        }
        proof {
            assert forall|j: int| 0 <= j < i implies key(#[trigger] views(out@)[j]) < k by {
                assert(T::key_of(out@[j]@) < k);
            }
            lemma_first_at_or_after(views(out@), key, k as int, i as int);
        }
        let ghost out_before = out@;
        out.insert(i, x);
        assert(views(out@) =~= views(out_before).insert(i as int, x@));
    }
    assert(orig.skip(0) =~= orig);
    out
}

} // verus!
