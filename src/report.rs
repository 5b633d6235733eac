use vstd::prelude::*;
use crate::log::{chars_of, parsed_i64, parse_i64, string_from, parse_line, line_view};
use crate::tasks::{Task, TaskView};
use crate::forest::{build_forest, forest_of_views, view_of_all};
use crate::layout::{display_rows, finalize_for_display, fits_depth, height, indents, layout, rows_view};
use crate::sorting::views;

verus! {

broadcast use vstd::std_specs::vec::group_vec_axioms;

/// Seconds in a day.
pub const SECONDS_PER_DAY: i64 = 86400;

/// How many days back the report reaches: `value` read as an `i64`, or 1 when
/// there is no value or it is not a number.
pub fn days_back(value: Option<&str>) -> (r: i64)
    ensures
        r == match value {
            Some(s) => match parsed_i64(s@) {
                Some(d) => d,
                None => 1,
            },
            None => 1,
        },
{
    match value {
        Some(s) => match parse_i64(s) {
            Some(d) => d,
            None => 1,
        },
        None => 1,
    }
}

/// The first instant shown: `days` whole days before `midnight`; `None` when
/// that instant, or the length of the stretch, does not fit in an `i64`.
pub fn cutoff_instant(midnight: i64, days: i64) -> (r: Option<i64>)
    ensures
        r == (if i64::MIN <= days * SECONDS_PER_DAY <= i64::MAX && i64::MIN <= midnight - days
            * SECONDS_PER_DAY <= i64::MAX {
            Some((midnight - days * SECONDS_PER_DAY) as i64)
        } else {
            None
        }),
{
    let span = days as i128 * SECONDS_PER_DAY as i128;
    if span < i64::MIN as i128 || span > i64::MAX as i128 {
        return None;
    }
    let first = midnight as i128 - span;
    if first < i64::MIN as i128 || first > i64::MAX as i128 {
        return None;
    }
    Some(first as i64)
}

/// The decimal digit `d`.
pub open spec fn digit_char(d: int) -> char {
    if d == 0 { '0' }
    else if d == 1 { '1' }
    else if d == 2 { '2' }
    else if d == 3 { '3' }
    else if d == 4 { '4' }
    else if d == 5 { '5' }
    else if d == 6 { '6' }
    else if d == 7 { '7' }
    else if d == 8 { '8' }
    else { '9' }
}

/// The decimal digits of `m`, most significant first, with no leading zeros.
pub open spec fn digits_text(m: nat) -> Seq<char>
    decreases m,
{
    if m < 10 {
        seq![digit_char(m as int)]
    } else {
        digits_text(m / 10).push(digit_char((m % 10) as int))
    }
}

/// `n` written in decimal, with a `-` in front when it is negative.
pub open spec fn decimal_text(n: int) -> Seq<char> {
    if n < 0 {
        seq!['-'] + digits_text((-n) as nat)
    } else {
        digits_text(n as nat)
    }
}

/// Relies on `i32`'s `ToString`: the value in decimal, with a leading `-` when
/// it is negative.
#[verifier::external_body]
fn int_text(n: i32) -> (r: String)
    ensures
        r@ == decimal_text(n as int),
{
    n.to_string()
}

/// The text shown for a number of hours or minutes: a blank for zero.
pub open spec fn clock_part(n: int) -> Seq<char> {
    if n == 0 {
        seq![' ']
    } else {
        decimal_text(n)
    }
}

/// `number` in decimal, or a single blank when it is zero.
pub fn zero_to_space(number: i32) -> (r: String)
    ensures
        r@ == clock_part(number as int),
{
    if number == 0 {
        let mut cs: Vec<char> = Vec::new();
        cs.push(' ');
        assert(cs@ =~= seq![' ']);
        string_from(&cs)
    } else {
        int_text(number)
    }
}

/// `n` blanks (none when `n` is not positive).
pub open spec fn spaces(n: int) -> Seq<char> {
    Seq::new(if n > 0 { n as nat } else { 0 }, |_i: int| ' ')
}

/// `s` right-aligned in a field of `width` characters.
pub open spec fn pad_left(s: Seq<char>, width: int) -> Seq<char> {
    spaces(width - s.len()) + s
}

/// `s` left-aligned in a field of `width` characters.
pub open spec fn pad_right(s: Seq<char>, width: int) -> Seq<char> {
    s + spaces(width - s.len())
}

/// Whole hours in `seconds`, truncated toward zero.
pub open spec fn hours_of(seconds: int) -> int {
    if seconds >= 0 { seconds / 3600 } else { -((-seconds) / 3600) }
}

/// Whole minutes left over after the hours, truncated toward zero.
pub open spec fn minutes_of(seconds: int) -> int {
    if seconds >= 0 { (seconds % 3600) / 60 } else { -(((-seconds) % 3600) / 60) }
}

/// One line of the report: hours and minutes, each right-aligned in two
/// places with zero shown as a blank, then two blanks per level of depth,
/// then the text left-aligned in fifty places.
pub open spec fn row_text(seconds: int, depth: int, text: Seq<char>) -> Seq<char> {
    seq![' ', ' ', ' ', '-', ' '] + pad_left(clock_part(hours_of(seconds)), 2) + seq![':']
        + pad_left(clock_part(minutes_of(seconds)), 2) + spaces(2 * depth) + seq![' ']
        + pad_right(text, 50)
}

/// Appends `n` blanks to `out`.
fn push_spaces(out: &mut Vec<char>, n: usize)
    ensures
        final(out)@ == old(out)@ + spaces(n as int),
{
    let mut i: usize = 0;
    let ghost start = out@;
    while i < n
        invariant
            i <= n,
            out@ == start + spaces(i as int),
        decreases n - i,
    {
        out.push(' ');
        i = i + 1;
        assert(out@ =~= start + spaces(i as int));
    }
}

/// Appends `s` to `out`, right-aligned in two places.
fn push_padded2(out: &mut Vec<char>, s: &Vec<char>)
    ensures
        final(out)@ == old(out)@ + pad_left(s@, 2),
{
    let ghost start = out@;
    if s.len() < 2 {
        push_spaces(out, 2 - s.len());
    } else {
        push_spaces(out, 0);
    }
    let mut i: usize = 0;
    let ghost mid = out@;
    while i < s.len()
        invariant
            i <= s@.len(),
            out@ == mid + s@.take(i as int),
        decreases s@.len() - i,
    {
        out.push(s[i]);
        i = i + 1;
        assert(out@ =~= mid + s@.take(i as int));
    }
    assert(s@.take(i as int) =~= s@);
    assert(spaces(2 - s@.len()) =~= spaces(if s@.len() < 2 { 2 - s@.len() } else { 0 }));
    assert(out@ =~= start + pad_left(s@, 2));
}

/// The report line for a task occurrence of `seconds` at `depth` with `text`.
pub fn format_row(seconds: i32, depth: usize, text: &str) -> (r: String)
    requires
        2 * depth <= usize::MAX,
    ensures
        r@ == row_text(seconds as int, depth as int, text@),
{
    let wide = seconds as i64;
    let (hours, minutes) = if wide >= 0 {
        (wide / 3600, (wide % 3600) / 60)
    } else {
        (-((-wide) / 3600), -(((-wide) % 3600) / 60))
    };
    let hours_part = chars_of(zero_to_space(hours as i32).as_str());
    let minutes_part = chars_of(zero_to_space(minutes as i32).as_str());
    let text_chars = chars_of(text);
    let mut out: Vec<char> = Vec::new();
    out.push(' ');
    out.push(' ');
    out.push(' ');
    out.push('-');
    out.push(' ');
    assert(out@ =~= seq![' ', ' ', ' ', '-', ' ']);
    push_padded2(&mut out, &hours_part);
    out.push(':');
    push_padded2(&mut out, &minutes_part);
    push_spaces(&mut out, 2 * depth);
    out.push(' ');
    let ghost before_text = out@;
    let mut i: usize = 0;
    while i < text_chars.len()
        invariant
            i <= text_chars@.len(),
            out@ == before_text + text_chars@.take(i as int),
        decreases text_chars@.len() - i,
    {
        out.push(text_chars[i]);
        i = i + 1;
        assert(out@ =~= before_text + text_chars@.take(i as int));
    }
    assert(text_chars@.take(i as int) =~= text_chars@);
    if text_chars.len() < 50 {
        push_spaces(&mut out, 50 - text_chars.len());
    }
    assert(spaces(50 - text@.len()) =~= (if text@.len() < 50 { spaces(50 - text@.len()) } else { Seq::empty() }));
    assert(out@ =~= row_text(seconds as int, depth as int, text@));
    string_from(&out)
}

/// The latest day announced by a date header before row `n`, given the day
/// number of each row: day 0 to begin with, then each day that got a header.
pub open spec fn announced_before(days: Seq<i64>, n: int) -> int
    decreases n,
{
    if n <= 0 {
        0
    } else {
        let prev = announced_before(days, n - 1);
        if days[n - 1] > prev {
            days[n - 1] as int
        } else {
            prev
        }
    }
}

/// Which rows open with a date header: those whose day is later than the last
/// day announced, starting from day 0.
pub fn date_headers(days: &Vec<i64>) -> (r: Vec<bool>)
    ensures
        r@.len() == days@.len(),
        forall|i: int| 0 <= i < days@.len() ==> #[trigger] r@[i] == (days@[i] > announced_before(days@, i)),
{
    let mut out: Vec<bool> = Vec::new();
    let mut prev: i64 = 0;
    let mut i: usize = 0;
    while i < days.len()
        invariant
            i <= days@.len(),
            out@.len() == i,
            prev == announced_before(days@, i as int),
            forall|k: int| 0 <= k < i ==> #[trigger] out@[k] == (days@[k] > announced_before(days@, k)),
        decreases days@.len() - i,
    {
        let day = days[i];
        let header = day > prev;
        out.push(header);
        if header {
            prev = day;
        }
        i = i + 1;
    }
    out
}

/// Laid-out rows with their depths as `usize`.
pub open spec fn with_usize_depth(rows: Seq<(TaskView, int)>) -> Seq<(TaskView, usize)> {
    Seq::new(rows.len(), |i: int| (rows[i].0, rows[i].1 as usize))
}

/// The tasks that the lines of a log record.
pub open spec fn tasks_of_lines(lines: Seq<Seq<char>>) -> Seq<TaskView> {
    Seq::new(lines.len(), |i: int| line_view(lines[i]))
}

/// The rows that the report shows for a log: its lines read into tasks, the
/// tasks built into a forest, the forest laid out by depth, and the layout cut
/// into one row per span from `cutoff` on, sorted by start.
pub open spec fn report_of(lines: Seq<Seq<char>>, cutoff: int) -> Seq<(TaskView, usize)> {
    display_rows(with_usize_depth(layout(forest_of_views(tasks_of_lines(lines)), 0)), cutoff)
}

/// Reads the lines of a log and returns the rows to show from `cutoff` on;
/// `None` only when the forest is too deep for its depths to fit in a `usize`.
pub fn report_rows(lines: &Vec<String>, cutoff: i64) -> (r: Option<Vec<(Task, usize)>>)
    ensures
        height(forest_of_views(tasks_of_lines(views(lines@)))) <= usize::MAX ==> r is Some
            && views(r->0@) == report_of(views(lines@), cutoff as int),
        height(forest_of_views(tasks_of_lines(views(lines@)))) > usize::MAX ==> r is None,
{
    let mut tasks: Vec<Task> = Vec::new();
    let mut i: usize = 0;
    while i < lines.len()
        invariant
            i <= lines@.len(),
            view_of_all(tasks@) == tasks_of_lines(views(lines@)).take(i as int),
        decreases lines@.len() - i,
    {
        let t = parse_line(lines[i].as_str());
        let ghost before = tasks@;
        tasks.push(t);
        assert(view_of_all(tasks@) =~= tasks_of_lines(views(lines@)).take(i + 1)) by {
            assert(view_of_all(tasks@) =~= view_of_all(before).push(t@));
        }
        i = i + 1;
    }
    assert(tasks_of_lines(views(lines@)).take(i as int) =~= tasks_of_lines(views(lines@)));
    let root = build_forest(tasks);
    if !fits_depth(&root, 0) {
        return None;
    }
    let rows = indents(&root, 0);
    assert(views(rows@) =~= with_usize_depth(rows_view(rows@)));
    Some(finalize_for_display(&rows, cutoff))
}

} // verus!
