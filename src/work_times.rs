use vstd::prelude::*;
use core::cmp::Ordering;
use vstd::std_specs::cmp::PartialOrdSpec;

verus! {

/// One recorded span of work, from `start` to `end`.
///
/// Spans are ordered by `start`, and spans with the same `start` by `end`.
#[derive(Debug, Clone, Copy, PartialEq, Eq, Structural, Ord)]
pub struct WorkTimes {
    pub start: i32,
    pub end: i32,
}

/// `a` sorts strictly before `b`: by start, then by end.
pub open spec fn span_lt(a: WorkTimes, b: WorkTimes) -> bool {
    a.start < b.start || (a.start == b.start && a.end < b.end)
}

/// The three-way comparison of two spans, by start and then by end.
pub open spec fn span_cmp(a: WorkTimes, b: WorkTimes) -> Ordering {
    if span_lt(a, b) {
        Ordering::Less
    } else if a == b {
        Ordering::Equal
    } else {
        Ordering::Greater
    }
}

impl WorkTimes {
    /// The length of the span, `end - start`.
    pub open spec fn spec_duration(self) -> int {
        self.end - self.start
    }

    /// How long the span lasts; negative when it ends before it starts.
    pub fn duration(&self) -> (r: i32)
        requires
            i32::MIN <= self.spec_duration() <= i32::MAX,
        ensures
            r == self.spec_duration(),
    {
        self.end - self.start
    }
}

impl PartialOrd for WorkTimes {
    fn partial_cmp(&self, other: &WorkTimes) -> (r: Option<Ordering>) {
        if self.start < other.start {
            Some(Ordering::Less)
        } else if self.start > other.start {
            Some(Ordering::Greater)
        } else if self.end < other.end {
            Some(Ordering::Less)
        } else if self.end > other.end {
            Some(Ordering::Greater)
        } else {
            Some(Ordering::Equal)
        }
    }
}

impl vstd::std_specs::cmp::PartialOrdSpecImpl for WorkTimes {
    open spec fn obeys_partial_cmp_spec() -> bool {
        true
    }

    open spec fn partial_cmp_spec(&self, other: &WorkTimes) -> Option<Ordering> {
        Some(span_cmp(*self, *other))
    }
}

/// Spans are compared first by start: a span that starts earlier sorts first,
/// whatever its end; spans that start together are compared by end.
pub proof fn lemma_span_order(i: WorkTimes, j: WorkTimes)
    ensures
        i.start < j.start ==> i.partial_cmp_spec(&j) == Some(Ordering::Less),
        i.start > j.start ==> i.partial_cmp_spec(&j) == Some(Ordering::Greater),
        i.start == j.start && i.end < j.end ==> i.partial_cmp_spec(&j) == Some(Ordering::Less),
        i.start == j.start && i.end > j.end ==> i.partial_cmp_spec(&j) == Some(Ordering::Greater),
        i.start == j.start && i.end == j.end ==> i.partial_cmp_spec(&j) == Some(Ordering::Equal),
{
}

} // verus!
