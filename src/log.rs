use vstd::prelude::*;
use vstd::std_specs::iter::IteratorSpec;
use crate::work_times::WorkTimes;
use crate::tasks::{Task, TaskView};

verus! {

/// The characters of `s`, in order.
pub fn chars_of(s: &str) -> (r: Vec<char>)
    ensures
        r@ == s@,
{
    let mut out: Vec<char> = Vec::new();
    let mut it = s.chars();
    proof {
        broadcast use {vstd::string::axiom_spec_iter, vstd::string::next_postcondition};
    }
    loop
        invariant
            out@ + it.remaining() == s@,
            it.decrease() is Some,
        ensures
            out@ == s@,
        decreases it.decrease()->0,
    {
        let ghost before = it.remaining();
        match it.next() {
            Some(c) => {
                out.push(c);
                assert(out@ + it.remaining() =~= s@);
            },
            None => {
                assert(before.len() == 0);
                assert(out@ =~= s@);
                break;
            },
        }
    }
    out
}

/// An ASCII decimal digit.
pub open spec fn is_digit(c: char) -> bool {
    '0' as u32 <= c as u32 <= '9' as u32
}

/// The value of a string of decimal digits.
pub open spec fn digits_value(ds: Seq<char>) -> int
    decreases ds.len(),
{
    if ds.len() == 0 {
        0
    } else {
        digits_value(ds.drop_last()) * 10 + (ds.last() as u32 - '0' as u32)
    }
}

/// The integer that `s` writes in decimal: an optional `+` or `-`, then one or
/// more ASCII digits and nothing else. `None` for any other text.
pub open spec fn decimal_value(s: Seq<char>) -> Option<int> {
    let signed = s.len() > 0 && (s[0] == '-' || s[0] == '+');
    let ds = if signed { s.drop_first() } else { s };
    if ds.len() > 0 && forall|i: int| 0 <= i < ds.len() ==> is_digit(#[trigger] ds[i]) {
        if signed && s[0] == '-' {
            Some(-digits_value(ds))
        } else {
            Some(digits_value(ds))
        }
    } else {
        None
    }
}

/// What parsing `s` as an `i32` gives: its decimal value where that fits.
pub open spec fn parsed_i32(s: Seq<char>) -> Option<i32> {
    match decimal_value(s) {
        Some(v) => if i32::MIN <= v <= i32::MAX { Some(v as i32) } else { None },
        None => None,
    }
}

/// What parsing `s` as an `i64` gives: its decimal value where that fits.
pub open spec fn parsed_i64(s: Seq<char>) -> Option<i64> {
    match decimal_value(s) {
        Some(v) => if i64::MIN <= v <= i64::MAX { Some(v as i64) } else { None },
        None => None,
    }
}

/// Relies on `String`'s `FromIterator<&char>`: the string holds the
/// characters in order.
#[verifier::external_body]
pub(crate) fn string_from(cs: &Vec<char>) -> (r: String)
    ensures
        r@ == cs@,
{
    cs.iter().collect()
}

/// Relies on `<i32 as FromStr>::from_str`: an optional sign and ASCII digits,
/// nothing else, with a value in range; any other text is an error.
#[verifier::external_body]
fn parse_i32(s: &str) -> (r: Option<i32>)
    ensures
        r == parsed_i32(s@),
{
    s.parse::<i32>().ok()
}

/// Relies on `<i64 as FromStr>::from_str`: an optional sign and ASCII digits,
/// nothing else, with a value in range; any other text is an error.
#[verifier::external_body]
pub(crate) fn parse_i64(s: &str) -> (r: Option<i64>)
    ensures
        r == parsed_i64(s@),
{
    s.parse::<i64>().ok()
}

/// `s` cut at every comma, as `str::split(',')` cuts it: there is always at
/// least one field, and a comma at either end gives an empty field there.
pub open spec fn split_commas(s: Seq<char>) -> Seq<Seq<char>>
    decreases s.len(),
{
    if s.len() == 0 {
        seq![Seq::empty()]
    } else {
        let rest = split_commas(s.drop_last());
        if s.last() == ',' {
            rest.push(Seq::empty())
        } else {
            rest.update(rest.len() - 1, rest.last().push(s.last()))
        }
    }
}

/// The fields of `cs`, cut at every comma.
pub fn split_fields(cs: &Vec<char>) -> (r: Vec<Vec<char>>)
    ensures
        crate::sorting::views(r@) == split_commas(cs@),
        r@.len() >= 1,
{
    let mut fields: Vec<Vec<char>> = Vec::new();
    let mut current: Vec<char> = Vec::new();
    let mut i: usize = 0;
    assert(cs@.take(0) =~= Seq::<char>::empty());
    while i < cs.len()
        invariant
            i <= cs@.len(),
            crate::sorting::views(fields@).push(current@) == split_commas(cs@.take(i as int)),
        decreases cs@.len() - i,
    {
        let c = cs[i];
        let ghost before = crate::sorting::views(fields@).push(current@);
        assert(cs@.take(i + 1).drop_last() =~= cs@.take(i as int));
        if c == ',' {
            let done = current;
            fields.push(done);
            current = Vec::new();
            assert(crate::sorting::views(fields@).push(current@) =~= before.push(Seq::empty()));
        } else {
            let ghost old_current = current@;
            current.push(c);
            assert(crate::sorting::views(fields@).push(current@) =~= before.update(
                before.len() - 1,
                before.last().push(c),
            ));
        }
        i = i + 1;
    }
    assert(cs@.take(i as int) =~= cs@);
    fields.push(current);
    assert(crate::sorting::views(fields@) =~= split_commas(cs@));
    fields
}

/// A field that opens with `#`: the last pair of the line that is read.
pub open spec fn is_marked(f: Seq<char>) -> bool {
    f.len() > 0 && f[0] == '#'
}

/// `f` without its `#` mark, if it has one.
pub open spec fn unmarked(f: Seq<char>) -> Seq<char> {
    if is_marked(f) {
        f.drop_first()
    } else {
        f
    }
}

/// The span that a pair of fields records: the start field holds the start
/// negated, the end field the end. `None` when either does not parse, or the
/// start cannot be negated within an `i32`.
pub open spec fn pair_span(start_field: Seq<char>, end_field: Seq<char>) -> Option<WorkTimes> {
    match (parsed_i32(start_field), parsed_i32(unmarked(end_field))) {
        (Some(s), Some(e)) => if s != i32::MIN {
            Some(WorkTimes { start: (-s) as i32, end: e })
        } else {
            None
        },
        _ => None,
    }
}

/// The spans recorded in `fields[0..hi]`, read in pairs from the right (start
/// field, then end field), up to and including the first pair whose end field
/// is marked. Pairs that do not parse are skipped.
pub open spec fn spans_before(fields: Seq<Seq<char>>, hi: int) -> Seq<WorkTimes>
    decreases hi,
{
    if hi < 2 {
        Seq::empty()
    } else {
        let here = match pair_span(fields[hi - 1], fields[hi - 2]) {
            Some(w) => seq![w],
            None => Seq::empty(),
        };
        if is_marked(fields[hi - 2]) {
            here
        } else {
            here + spans_before(fields, hi - 2)
        }
    }
}

/// The task that a line of the log records: its last comma-separated field is
/// the text, and the fields before it, read from the right, give the spans.
pub open spec fn line_view(line: Seq<char>) -> TaskView {
    let fields = split_commas(line);
    TaskView {
        intervals: spans_before(fields, fields.len() - 1),
        text: fields.last(),
        subs: Seq::empty(),
    }
}

/// Reads one line of the log into a task with no subtasks.
pub fn parse_line(line: &str) -> (r: Task)
    ensures
        r@ == line_view(line@),
{
    let cs = chars_of(line);
    let mut fields = split_fields(&cs);
    let ghost all = crate::sorting::views(fields@);
    let ghost n = all.len() as int;
    let text_chars = fields.pop().unwrap();
    assert(crate::sorting::views(fields@) =~= all.take(n - 1));
    let text = string_from(&text_chars);
    assert(text@ == all.last());
    let mut spans: Vec<WorkTimes> = Vec::new();
    let mut done = false;
    assert(spans@ + spans_before(all, n - 1) =~= spans_before(all, n - 1));
    while !done && fields.len() >= 2
        invariant
            n == all.len(),
            n >= 1,
            fields@.len() < n,
            crate::sorting::views(fields@) == all.take(fields@.len() as int),
            !done ==> spans@ + spans_before(all, fields@.len() as int) == spans_before(all, n - 1),
            done ==> spans@ == spans_before(all, n - 1),
        decreases fields@.len(),
    {
        let ghost hi = fields@.len() as int;
        let ghost before = spans@;
        let ghost fields_before = fields@;
        let start_f = fields.pop().unwrap();
        let mut end_f = fields.pop().unwrap();
        assert(start_f@ == crate::sorting::views(fields_before)[hi - 1]);
        assert(end_f@ == crate::sorting::views(fields_before)[hi - 2]);
        assert(start_f@ == all[hi - 1]);
        assert(end_f@ == all[hi - 2]);
        assert(fields@ =~= fields_before.take(hi - 2));
        assert(crate::sorting::views(fields@) =~= all.take(hi - 2)) by {
            assert forall|k: int| 0 <= k < hi - 2 implies crate::sorting::views(fields@)[k] == all.take(hi - 2)[k] by {
                assert(crate::sorting::views(fields_before)[k] == all.take(hi)[k]);
            }
        }
        let marked = end_f.len() > 0 && end_f[0] == '#';
        assert(marked == is_marked(all[hi - 2]));
        if marked {
            end_f.remove(0);
            assert(end_f@ =~= unmarked(all[hi - 2]));
        }
        let start_text = string_from(&start_f);
        let end_text = string_from(&end_f);
        let s = parse_i32(start_text.as_str());
        let e = parse_i32(end_text.as_str());
        let ghost here = match pair_span(all[hi - 1], all[hi - 2]) {
            Some(w) => seq![w],
            None => Seq::empty(),
        };
        match (s, e) {
            (Some(a), Some(b)) => {
                if a != i32::MIN {
                    spans.push(WorkTimes { start: -a, end: b });
                }
            },
            _ => {},
        }
        assert(spans@ =~= before + here);
        if marked {
            done = true;
        } else {
            assert(spans@ + spans_before(all, hi - 2) =~= before + spans_before(all, hi));
        }
    }
    assert(spans@ =~= spans_before(all, n - 1));
    assert(all == split_commas(cs@));
    let r = Task { work_times: spans, text, subs: Vec::new() };
    assert(r@.subs =~= Seq::<TaskView>::empty());
    assert(r@.intervals == line_view(line@).intervals);
    assert(r@.text == line_view(line@).text);
    r
}

} // verus!
