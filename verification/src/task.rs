//! Task records and the checklist parser.
//!
//! A checklist line has the shape `- [ ] text` or `- [x] text` (with
//! arbitrary surrounding whitespace). Its free-text tail may carry
//! emoji-tagged date annotations — due, scheduled and start, each a marker
//! character, one space, and an absolute `YYYY-MM-DD` date — and one of five
//! priority signifier characters. Annotations are scrubbed from the
//! description even when their date fails calendar validation; the
//! description is then trimmed and its whitespace runs collapsed.

use vstd::prelude::*;

use crate::calendar::{date_lt, spec_date_lt, today_date, valid_date, valid_date_exec, Date};
use crate::dates::{four_digit_val, today_ok, two_digit_val};
use crate::text::{
    chars_vec, collapse_from, collapse_ws, contains_char, is_digit, is_digit_char, is_space,
    is_space_char, lines_of, remove_char, skip_ws, spec_clean, spec_lines, spec_trim,
    string_from_chars, subvec, trim_chars, ws_run_end,
};

verus! {

/// Marker character of a due-date annotation.
pub const DUE_MARKER: char = '\u{1F4C5}';

/// Marker character of a scheduled-date annotation.
pub const SCHEDULED_MARKER: char = '\u{23F3}';

/// Marker character of a start-date annotation.
pub const START_MARKER: char = '\u{1F6EB}';

/// Signifier character of the highest priority.
pub const HIGHEST_SIGN: char = '\u{1F53A}';

/// Signifier character of high priority.
pub const HIGH_SIGN: char = '\u{23EB}';

/// Signifier character of medium priority.
pub const MEDIUM_SIGN: char = '\u{1F53C}';

/// Signifier character of low priority.
pub const LOW_SIGN: char = '\u{1F53D}';

/// Signifier character of the lowest priority.
pub const LOWEST_SIGN: char = '\u{23EC}';

/// A task's priority, from the highest signifier down to none at all.
#[derive(Clone, Copy, Debug, PartialEq, Eq, Structural, Hash)]
pub enum Priority {
    Highest,
    High,
    Medium,
    Low,
    Lowest,
    NoPriority,
}

/// One parsed task record.
pub struct Task {
    /// Cleaned description: annotations and the chosen signifier scrubbed,
    /// whitespace runs collapsed, ends trimmed.
    pub name: String,
    /// Whether the checkbox holds a lowercase `x`.
    pub completed: bool,
    /// The due date, when its annotation carries a calendar-valid date.
    pub due: Option<Date>,
    /// The scheduled date, under the same rule.
    pub scheduled: Option<Date>,
    /// The start date, under the same rule.
    pub start: Option<Date>,
    /// Whether the due date is present and strictly before the parse's "today".
    pub overdue: bool,
    /// The priority the first signifier (in precedence order) names.
    pub priority: Priority,
}

/// The mathematical value of a task record.
#[verifier::ext_equal]
pub ghost struct TaskView {
    pub name: Seq<char>,
    pub completed: bool,
    pub due: Option<Date>,
    pub scheduled: Option<Date>,
    pub start: Option<Date>,
    pub overdue: bool,
    pub priority: Priority,
}

impl View for Task {
    type V = TaskView;

    open spec fn view(&self) -> TaskView {
        TaskView {
            name: self.name@,
            completed: self.completed,
            due: self.due,
            scheduled: self.scheduled,
            start: self.start,
            overdue: self.overdue,
            priority: self.priority,
        }
    }
}

impl Clone for Task {
    fn clone(&self) -> (res: Self)
        ensures
            res@ == self@,
    {
        Task {
            name: self.name.clone(),
            completed: self.completed,
            due: self.due,
            scheduled: self.scheduled,
            start: self.start,
            overdue: self.overdue,
            priority: self.priority,
        }
    }
}

/// Whether a date annotation with marker `mark` starts at position `i`:
/// the marker, one space, then `YYYY-MM-DD` — twelve characters in all.
pub open spec fn date_pat_at(s: Seq<char>, i: int, mark: char) -> bool {
    &&& 0 <= i
    &&& i + 12 <= s.len()
    &&& s[i] == mark
    &&& s[i + 1] == ' '
    &&& is_digit(s[i + 2]) && is_digit(s[i + 3]) && is_digit(s[i + 4]) && is_digit(s[i + 5])
    &&& s[i + 6] == '-'
    &&& is_digit(s[i + 7]) && is_digit(s[i + 8])
    &&& s[i + 9] == '-'
    &&& is_digit(s[i + 10]) && is_digit(s[i + 11])
}

/// First position at or after `from` where the annotation pattern matches
/// (the length of the sequence if there is none).
pub open spec fn find_pat_from(s: Seq<char>, mark: char, from: int) -> int
    decreases s.len() - from,
{
    if !(0 <= from < s.len()) {
        from
    } else if date_pat_at(s, from, mark) {
        from
    } else {
        find_pat_from(s, mark, from + 1)
    }
}

/// The date written in an annotation starting at position `i`.
pub open spec fn annotation_date(s: Seq<char>, i: int) -> Date {
    Date {
        year: four_digit_val(s, i + 2) as i32,
        month: two_digit_val(s, i + 7) as u8,
        day: two_digit_val(s, i + 10) as u8,
    }
}

/// The date carried by the first annotation with marker `mark`, if that
/// annotation's date is calendar-valid.
pub open spec fn spec_first_date(s: Seq<char>, mark: char) -> Option<Date> {
    let i = find_pat_from(s, mark, 0);
    if i < s.len() {
        if valid_date(annotation_date(s, i)) {
            Some(annotation_date(s, i))
        } else {
            None
        }
    } else {
        None
    }
}

/// `s` from position `from` on with every annotation occurrence of `mark`
/// removed, scanning left to right and never rescanning removed spans.
pub open spec fn spec_strip_from(s: Seq<char>, mark: char, from: int) -> Seq<char>
    decreases s.len() - from,
{
    if !(0 <= from < s.len()) {
        Seq::empty()
    } else if date_pat_at(s, from, mark) {
        spec_strip_from(s, mark, from + 12)
    } else {
        seq![s[from]] + spec_strip_from(s, mark, from + 1)
    }
}

/// The tail after the three date annotations are scrubbed, in their fixed
/// order: due first, then scheduled, then start.
pub open spec fn spec_strip_dates(s: Seq<char>) -> Seq<char> {
    spec_strip_from(
        spec_strip_from(spec_strip_from(s, DUE_MARKER, 0), SCHEDULED_MARKER, 0),
        START_MARKER,
        0,
    )
}

/// `s` with every occurrence of signifier `c` removed, then trimmed.
pub open spec fn strip_sign(s: Seq<char>, c: char) -> Seq<char> {
    spec_trim(crate::text::remove_all_char(s, c))
}

/// The priority the text names — the first signifier present in the fixed
/// precedence order, later ones ignored — together with the text the chosen
/// signifier (and only it) is stripped from.
pub open spec fn spec_parse_priority(s: Seq<char>) -> (Seq<char>, Priority) {
    if s.contains(HIGHEST_SIGN) {
        (strip_sign(s, HIGHEST_SIGN), Priority::Highest)
    } else if s.contains(HIGH_SIGN) {
        (strip_sign(s, HIGH_SIGN), Priority::High)
    } else if s.contains(MEDIUM_SIGN) {
        (strip_sign(s, MEDIUM_SIGN), Priority::Medium)
    } else if s.contains(LOW_SIGN) {
        (strip_sign(s, LOW_SIGN), Priority::Low)
    } else if s.contains(LOWEST_SIGN) {
        (strip_sign(s, LOWEST_SIGN), Priority::Lowest)
    } else {
        (s, Priority::NoPriority)
    }
}

/// The checklist-line shape: optional whitespace, `-`, optional whitespace,
/// `[`, one whitespace character or `x`, `]`, optional whitespace, then the
/// free-text tail. Yields whether the box holds `x`, and the tail.
pub open spec fn spec_line_shape(line: Seq<char>) -> Option<(bool, Seq<char>)> {
    let i = ws_run_end(line, 0);
    if i < line.len() && line[i] == '-' {
        let j = ws_run_end(line, i + 1);
        if j + 2 < line.len() && line[j] == '[' && (is_space(line[j + 1]) || line[j + 1] == 'x')
            && line[j + 2] == ']' {
            let k = ws_run_end(line, j + 3);
            Some((line[j + 1] == 'x', line.subrange(k, line.len() as int)))
        } else {
            None
        }
    } else {
        None
    }
}

/// The task a single line yields against `today`, if the line matches the
/// checklist shape.
pub open spec fn spec_task_of(line: Seq<char>, today: Date) -> Option<TaskView> {
    match spec_line_shape(line) {
        None => None,
        Some((completed, rest)) => {
            let due = spec_first_date(rest, DUE_MARKER);
            let pr = spec_parse_priority(spec_strip_dates(rest));
            Some(
                TaskView {
                    name: spec_clean(pr.0),
                    completed: completed,
                    due: due,
                    scheduled: spec_first_date(rest, SCHEDULED_MARKER),
                    start: spec_first_date(rest, START_MARKER),
                    overdue: due matches Some(d) && spec_date_lt(d, today),
                    priority: pr.1,
                },
            )
        },
    }
}

/// The tasks a whole input yields against `today`: its lines in order,
/// each matching line contributing one task.
pub open spec fn spec_parse_input(text: Seq<char>, today: Date) -> Seq<TaskView> {
    spec_lines(text).filter_map(|l: Seq<char>| spec_task_of(l, today))
}

/// Whether the twelve-character annotation pattern with marker `mark`
/// starts at `i`.
fn pat_at(v: &Vec<char>, i: usize, mark: char) -> (r: bool)
    requires
        i <= v@.len(),
    ensures
        r == date_pat_at(v@, i as int, mark),
{
    if v.len() - i < 12 {
        return false;
    }
    v[i] == mark && v[i + 1] == ' ' && is_digit_char(v[i + 2]) && is_digit_char(v[i + 3])
        && is_digit_char(v[i + 4]) && is_digit_char(v[i + 5]) && v[i + 6] == '-' && is_digit_char(
        v[i + 7],
    ) && is_digit_char(v[i + 8]) && v[i + 9] == '-' && is_digit_char(v[i + 10]) && is_digit_char(
        v[i + 11],
    )
}

/// The date of the first `mark` annotation of `v`, if calendar-valid.
fn first_date(v: &Vec<char>, mark: char) -> (r: Option<Date>)
    ensures
        r == spec_first_date(v@, mark),
{
    let mut i: usize = 0;
    while i < v.len()
        invariant
            i <= v@.len(),
            find_pat_from(v@, mark, 0) == find_pat_from(v@, mark, i as int),
        decreases v@.len() - i,
    {
        if pat_at(v, i, mark) {
            let y: u32 = 1000 * (v[i + 2] as u32 - 48) + 100 * (v[i + 3] as u32 - 48) + 10 * (v[i
                + 4] as u32 - 48) + (v[i + 5] as u32 - 48);
            let m: u32 = 10 * (v[i + 7] as u32 - 48) + (v[i + 8] as u32 - 48);
            let d: u32 = 10 * (v[i + 10] as u32 - 48) + (v[i + 11] as u32 - 48);
            let date = Date { year: y as i32, month: m as u8, day: d as u8 };
            if valid_date_exec(&date) {
                return Some(date);
            } else {
                return None;
            }
        }
        i = i + 1;
    }
    None
}

/// `v` with every `mark` annotation occurrence removed.
fn strip_marker(v: &Vec<char>, mark: char) -> (r: Vec<char>)
    ensures
        r@ == spec_strip_from(v@, mark, 0),
{
    let mut r: Vec<char> = Vec::new();
    let mut i: usize = 0;
    while i < v.len()
        invariant
            i <= v@.len(),
            spec_strip_from(v@, mark, 0) =~= r@ + spec_strip_from(v@, mark, i as int),
        decreases v@.len() - i,
    {
        let ghost prev = r@;
        if pat_at(v, i, mark) {
            i = i + 12;
        } else {
            r.push(v[i]);
            proof {
                assert(prev + spec_strip_from(v@, mark, i as int) =~= r@ + spec_strip_from(
                    v@,
                    mark,
                    i + 1,
                ));
            }
            i = i + 1;
        }
    }
    proof {
        assert(r@ + spec_strip_from(v@, mark, i as int) =~= r@);
    }
    r
}

/// The priority named by the characters, and the characters the chosen
/// signifier is stripped from.
fn priority_of_chars(v: &Vec<char>) -> (r: (Vec<char>, Priority))
    ensures
        r.0@ == spec_parse_priority(v@).0,
        r.1 == spec_parse_priority(v@).1,
{
    if contains_char(v, HIGHEST_SIGN) {
        (trim_chars(&remove_char(v, HIGHEST_SIGN)), Priority::Highest)
    } else if contains_char(v, HIGH_SIGN) {
        (trim_chars(&remove_char(v, HIGH_SIGN)), Priority::High)
    } else if contains_char(v, MEDIUM_SIGN) {
        (trim_chars(&remove_char(v, MEDIUM_SIGN)), Priority::Medium)
    } else if contains_char(v, LOW_SIGN) {
        (trim_chars(&remove_char(v, LOW_SIGN)), Priority::Low)
    } else if contains_char(v, LOWEST_SIGN) {
        (trim_chars(&remove_char(v, LOWEST_SIGN)), Priority::Lowest)
    } else {
        let r = subvec(v, 0, v.len());
        proof {
            assert(r@ =~= v@);
        }
        (r, Priority::NoPriority)
    }
}

/// Find the priority signifier of a description — first match in the fixed
/// precedence order wins — and strip that signifier from it.
pub fn parse_priority(description: &str) -> (r: (String, Priority))
    ensures
        r.0@ == spec_parse_priority(description@).0,
        r.1 == spec_parse_priority(description@).1,
{
    let v = chars_vec(description);
    let (c, p) = priority_of_chars(&v);
    (string_from_chars(&c), p)
}

/// Parse one line against `today`.
fn task_of_line(line: &Vec<char>, today: &Date) -> (r: Option<Task>)
    ensures
        r matches Some(t) ==> spec_task_of(line@, *today) == Some(t@),
        r is None ==> spec_task_of(line@, *today) is None,
{
    let n = line.len();
    let i = skip_ws(line, 0);
    if i >= n || line[i] != '-' {
        return None;
    }
    let j = skip_ws(line, i + 1);
    if n - j < 3 {
        return None;
    }
    if line[j] != '[' {
        return None;
    }
    let c = line[j + 1];
    if !(is_space_char(c) || c == 'x') {
        return None;
    }
    if line[j + 2] != ']' {
        return None;
    }
    let k = skip_ws(line, j + 3);
    let rest = subvec(line, k, n);
    let due = first_date(&rest, DUE_MARKER);
    let scheduled = first_date(&rest, SCHEDULED_MARKER);
    let start = first_date(&rest, START_MARKER);
    let t1 = strip_marker(&rest, DUE_MARKER);
    let t2 = strip_marker(&t1, SCHEDULED_MARKER);
    let t3 = strip_marker(&t2, START_MARKER);
    let (pname, priority) = priority_of_chars(&t3);
    let cleaned = collapse_ws(&trim_chars(&pname));
    let overdue = match due {
        Some(d) => date_lt(&d, today),
        None => false,
    };
    let name = string_from_chars(&cleaned);
    let t = Task { name, completed: c == 'x', due, scheduled, start, overdue, priority };
    proof {
        assert(spec_task_of(line@, *today) matches Some(tv) && tv =~= t@);
    }
    Some(t)
}

/// Parse a whole input against an explicit `today`: line by line, in order,
/// every line of the checklist shape yielding one task and every other line
/// yielding none.
pub fn parse_input_as_of(input: &str, today: &Date) -> (r: Vec<Task>)
    ensures
        r@.map_values(|t: Task| t@) == spec_parse_input(input@, *today),
{
    let v = chars_vec(input);
    let lines = lines_of(&v);
    let ghost lseq = spec_lines(v@);
    let ghost f = |l: Seq<char>| spec_task_of(l, *today);
    let mut r: Vec<Task> = Vec::new();
    let mut i: usize = 0;
    while i < lines.len()
        invariant
            i <= lines@.len(),
            lines@.map_values(|l: Vec<char>| l@) == lseq,
            f == (|l: Seq<char>| spec_task_of(l, *today)),
            r@.map_values(|t: Task| t@) =~= lseq.take(i as int).filter_map(f),
        decreases lines@.len() - i,
    {
        let ghost prev = r@.map_values(|t: Task| t@);
        proof {
            assert(lseq.take(i + 1).drop_last() =~= lseq.take(i as int));
            assert(lseq.take(i + 1).last() == lines@.map_values(|l: Vec<char>| l@)[i as int]);
        }
        match task_of_line(&lines[i], today) {
            Some(t) => {
                r.push(t);
                proof {
                    assert(r@.map_values(|t: Task| t@) =~= prev + seq![t@]);
                    assert(lseq.take(i + 1).filter_map(f) == lseq.take(i as int).filter_map(f)
                        + seq![t@]);
                }
            },
            None => {
                proof {
                    assert(lseq.take(i + 1).filter_map(f) == lseq.take(i as int).filter_map(f));
                }
            },
        }
        i = i + 1;
    }
    proof {
        assert(lseq.take(lines@.len() as int) =~= lseq);
    }
    r
}

/// How many of the lines match the checklist shape.
pub open spec fn count_task_lines(ls: Seq<Seq<char>>) -> int
    decreases ls.len(),
{
    if ls.len() == 0 {
        0
    } else {
        count_task_lines(ls.drop_last()) + if spec_line_shape(ls.last()) is Some {
            1int
        } else {
            0int
        }
    }
}

proof fn lemma_filter_map_count(ls: Seq<Seq<char>>, today: Date)
    ensures
        ls.filter_map(|l: Seq<char>| spec_task_of(l, today)).len() == count_task_lines(ls),
    decreases ls.len(),
{
    let f = |l: Seq<char>| spec_task_of(l, today);
    if ls.len() == 0 {
        assert(ls.filter_map(f).len() == 0);
    } else {
        lemma_filter_map_count(ls.drop_last(), today);
    }
}

/// A line that lacks the checklist shape never contributes a task: a parse
/// yields exactly one task per matching line, so the task count equals the
/// count of matching lines.
pub proof fn lemma_task_count(text: Seq<char>, today: Date)
    ensures
        spec_parse_input(text, today).len() == count_task_lines(spec_lines(text)),
{
    lemma_filter_map_count(spec_lines(text), today);
}

/// A task is overdue exactly when it has a due date strictly before the
/// parse's "today"; one due exactly today is never overdue.
pub proof fn lemma_overdue_iff(line: Seq<char>, today: Date)
    ensures
        spec_task_of(line, today) matches Some(t) ==> (t.overdue <==> (t.due matches Some(d)
            && spec_date_lt(d, today))),
        spec_task_of(line, today) matches Some(t) ==> (t.due == Some(today) ==> !t.overdue),
{
}

proof fn lemma_find_pat_from(s: Seq<char>, mark: char, from: int)
    requires
        0 <= from <= s.len(),
    ensures
        from <= find_pat_from(s, mark, from) <= s.len(),
        forall|k: int| from <= k < find_pat_from(s, mark, from) ==> !date_pat_at(s, k, mark),
        find_pat_from(s, mark, from) < s.len() ==> date_pat_at(s, find_pat_from(s, mark, from), mark),
    decreases s.len() - from,
{
    if from < s.len() && !date_pat_at(s, from, mark) {
        lemma_find_pat_from(s, mark, from + 1);
    }
}

proof fn lemma_strip_no_marker(s: Seq<char>, mark: char, from: int)
    requires
        0 <= from <= s.len(),
        forall|q: int| from <= q < s.len() && s[q] == mark ==> date_pat_at(s, q, mark),
    ensures
        forall|k: int|
            0 <= k < spec_strip_from(s, mark, from).len() ==> #[trigger] spec_strip_from(
                s,
                mark,
                from,
            )[k] != mark,
    decreases s.len() - from,
{
    if from < s.len() {
        if date_pat_at(s, from, mark) {
            lemma_strip_no_marker(s, mark, from + 12);
            assert(spec_strip_from(s, mark, from) == spec_strip_from(s, mark, from + 12));
        } else {
            assert(s[from] != mark);
            lemma_strip_no_marker(s, mark, from + 1);
            let rest = spec_strip_from(s, mark, from + 1);
            assert(spec_strip_from(s, mark, from) == seq![s[from]] + rest);
            assert forall|k: int|
                0 <= k < spec_strip_from(s, mark, from).len() implies #[trigger] spec_strip_from(
                s,
                mark,
                from,
            )[k] != mark by {
                if k == 0 {
                    assert((seq![s[from]] + rest)[0] == s[from]);
                } else {
                    assert((seq![s[from]] + rest)[k] == rest[k - 1]);
                    assert(rest[k - 1] != mark);
                }
            }
        }
    } else {
        assert(spec_strip_from(s, mark, from).len() == 0);
    }
}

proof fn lemma_strip_keeps_missing(s: Seq<char>, mark: char, from: int, c: char)
    requires
        0 <= from <= s.len(),
        forall|q: int| 0 <= q < s.len() ==> #[trigger] s[q] != c,
    ensures
        forall|k: int|
            0 <= k < spec_strip_from(s, mark, from).len() ==> #[trigger] spec_strip_from(
                s,
                mark,
                from,
            )[k] != c,
    decreases s.len() - from,
{
    if from < s.len() {
        if date_pat_at(s, from, mark) {
            lemma_strip_keeps_missing(s, mark, from + 12, c);
            assert(spec_strip_from(s, mark, from) == spec_strip_from(s, mark, from + 12));
        } else {
            lemma_strip_keeps_missing(s, mark, from + 1, c);
            let rest = spec_strip_from(s, mark, from + 1);
            assert(spec_strip_from(s, mark, from) == seq![s[from]] + rest);
            assert forall|k: int|
                0 <= k < spec_strip_from(s, mark, from).len() implies #[trigger] spec_strip_from(
                s,
                mark,
                from,
            )[k] != c by {
                if k == 0 {
                    assert((seq![s[from]] + rest)[0] == s[from]);
                    assert(s[from] != c);
                } else {
                    assert((seq![s[from]] + rest)[k] == rest[k - 1]);
                    assert(rest[k - 1] != c);
                }
            }
        }
    } else {
        assert(spec_strip_from(s, mark, from).len() == 0);
    }
}

proof fn lemma_remove_keeps_missing(s: Seq<char>, removed: char, c: char)
    requires
        forall|q: int| 0 <= q < s.len() ==> #[trigger] s[q] != c,
    ensures
        forall|k: int|
            0 <= k < crate::text::remove_all_char(s, removed).len()
                ==> #[trigger] crate::text::remove_all_char(s, removed)[k] != c,
    decreases s.len(),
{
    if s.len() > 0 {
        assert(forall|q: int| 0 <= q < s.drop_last().len() ==> #[trigger] s.drop_last()[q] != c);
        lemma_remove_keeps_missing(s.drop_last(), removed, c);
        let rec = crate::text::remove_all_char(s.drop_last(), removed);
        if s.last() != removed {
            assert(crate::text::remove_all_char(s, removed) == rec.push(s.last()));
            assert(s[s.len() - 1] != c);
            assert forall|k: int|
                0 <= k < crate::text::remove_all_char(s, removed).len()
                    implies #[trigger] crate::text::remove_all_char(s, removed)[k] != c by {
                if k < rec.len() {
                    assert(rec.push(s.last())[k] == rec[k]);
                    assert(rec[k] != c);
                } else {
                    assert(rec.push(s.last())[k] == s.last());
                }
            }
        }
    }
}

proof fn lemma_trim_keeps_missing(s: Seq<char>, c: char)
    requires
        forall|q: int| 0 <= q < s.len() ==> #[trigger] s[q] != c,
    ensures
        forall|k: int| 0 <= k < spec_trim(s).len() ==> #[trigger] spec_trim(s)[k] != c,
{
    crate::text::lemma_ws_run_end(s, 0);
    crate::text::lemma_trim_end_idx(s);
}

proof fn lemma_collapse_keeps_missing(s: Seq<char>, from: int, c: char)
    requires
        0 <= from <= s.len(),
        c != ' ',
        forall|q: int| 0 <= q < s.len() ==> #[trigger] s[q] != c,
    ensures
        forall|k: int|
            0 <= k < collapse_from(s, from).len() ==> #[trigger] collapse_from(s, from)[k] != c,
    decreases s.len() - from,
{
    if from < s.len() {
        if is_space(s[from]) {
            crate::text::lemma_ws_run_end(s, from);
            lemma_collapse_keeps_missing(s, ws_run_end(s, from), c);
            let rest = collapse_from(s, ws_run_end(s, from));
            assert forall|k: int|
                0 <= k < collapse_from(s, from).len() implies #[trigger] collapse_from(
                s,
                from,
            )[k] != c by {
                if k > 0 {
                    assert(collapse_from(s, from)[k] == rest[k - 1]);
                }
            }
        } else {
            lemma_collapse_keeps_missing(s, from + 1, c);
            let rest = collapse_from(s, from + 1);
            assert forall|k: int|
                0 <= k < collapse_from(s, from).len() implies #[trigger] collapse_from(
                s,
                from,
            )[k] != c by {
                if k > 0 {
                    assert(collapse_from(s, from)[k] == rest[k - 1]);
                }
            }
        }
    }
}

proof fn lemma_priority_keeps_missing(s: Seq<char>, c: char)
    requires
        forall|q: int| 0 <= q < s.len() ==> #[trigger] s[q] != c,
    ensures
        forall|k: int|
            0 <= k < spec_parse_priority(s).0.len() ==> #[trigger] spec_parse_priority(s).0[k]
                != c,
{
    if s.contains(HIGHEST_SIGN) {
        lemma_remove_keeps_missing(s, HIGHEST_SIGN, c);
        lemma_trim_keeps_missing(crate::text::remove_all_char(s, HIGHEST_SIGN), c);
    } else if s.contains(HIGH_SIGN) {
        lemma_remove_keeps_missing(s, HIGH_SIGN, c);
        lemma_trim_keeps_missing(crate::text::remove_all_char(s, HIGH_SIGN), c);
    } else if s.contains(MEDIUM_SIGN) {
        lemma_remove_keeps_missing(s, MEDIUM_SIGN, c);
        lemma_trim_keeps_missing(crate::text::remove_all_char(s, MEDIUM_SIGN), c);
    } else if s.contains(LOW_SIGN) {
        lemma_remove_keeps_missing(s, LOW_SIGN, c);
        lemma_trim_keeps_missing(crate::text::remove_all_char(s, LOW_SIGN), c);
    } else if s.contains(LOWEST_SIGN) {
        lemma_remove_keeps_missing(s, LOWEST_SIGN, c);
        lemma_trim_keeps_missing(crate::text::remove_all_char(s, LOWEST_SIGN), c);
    }
}

/// A task's due date is present exactly when its line carries a due
/// annotation with a calendar-valid date, and the annotation — its marker
/// included — never reaches the name, also when its date fails calendar
/// validation.
///
/// Stated for a matching line whose tail `rest` uses the due marker only to
/// open well-formed annotations, at most one of them: with several
/// occurrences the first one alone decides the date, and removing one
/// annotation can splice surrounding text into a fresh marker-like shape.
pub proof fn lemma_due_annotation(line: Seq<char>, today: Date, completed: bool, rest: Seq<char>)
    requires
        spec_line_shape(line) == Some((completed, rest)),
        forall|q: int| 0 <= q < rest.len() && rest[q] == DUE_MARKER ==> date_pat_at(
            rest,
            q,
            DUE_MARKER,
        ),
        forall|q1: int, q2: int|
            (0 <= q1 < rest.len() && rest[q1] == DUE_MARKER && 0 <= q2 < rest.len() && rest[q2]
                == DUE_MARKER) ==> q1 == q2,
    ensures
        spec_task_of(line, today) matches Some(t) ==> (t.due is Some <==> exists|i: int|
            date_pat_at(rest, i, DUE_MARKER) && valid_date(annotation_date(rest, i))),
        spec_task_of(line, today) matches Some(t) ==> !t.name.contains(DUE_MARKER),
{
    let t = spec_task_of(line, today)->0;
    lemma_find_pat_from(rest, DUE_MARKER, 0);
    let f = find_pat_from(rest, DUE_MARKER, 0);
    if t.due is Some {
        assert(date_pat_at(rest, f, DUE_MARKER) && valid_date(annotation_date(rest, f)));
    }
    if exists|i: int| date_pat_at(rest, i, DUE_MARKER) && valid_date(annotation_date(rest, i)) {
        let i = choose|i: int|
            date_pat_at(rest, i, DUE_MARKER) && valid_date(annotation_date(rest, i));
        assert(f < rest.len() && date_pat_at(rest, f, DUE_MARKER));
        assert(rest[f] == DUE_MARKER && rest[i] == DUE_MARKER);
        assert(f == i);
    }
    lemma_due_marker_scrubbed(line, today, completed, rest);
}

/// The due marker never reaches the name, whether or not the annotations'
/// dates are calendar-valid: it is enough that every occurrence of the
/// marker in the tail opens a well-formed annotation. Several such
/// annotations may occur; all are scrubbed.
pub proof fn lemma_due_marker_scrubbed(
    line: Seq<char>,
    today: Date,
    completed: bool,
    rest: Seq<char>,
)
    requires
        spec_line_shape(line) == Some((completed, rest)),
        forall|q: int| 0 <= q < rest.len() && rest[q] == DUE_MARKER ==> date_pat_at(
            rest,
            q,
            DUE_MARKER,
        ),
    ensures
        spec_task_of(line, today) matches Some(t) ==> !t.name.contains(DUE_MARKER),
{
    let t = spec_task_of(line, today)->0;
    let t1 = spec_strip_from(rest, DUE_MARKER, 0);
    let t2 = spec_strip_from(t1, SCHEDULED_MARKER, 0);
    let t3 = spec_strip_from(t2, START_MARKER, 0);
    lemma_strip_no_marker(rest, DUE_MARKER, 0);
    lemma_strip_keeps_missing(t1, SCHEDULED_MARKER, 0, DUE_MARKER);
    lemma_strip_keeps_missing(t2, START_MARKER, 0, DUE_MARKER);
    lemma_priority_keeps_missing(t3, DUE_MARKER);
    let pname = spec_parse_priority(t3).0;
    lemma_trim_keeps_missing(pname, DUE_MARKER);
    lemma_collapse_keeps_missing(spec_trim(pname), 0, DUE_MARKER);
    assert(t.name == collapse_from(spec_trim(pname), 0));
    if t.name.contains(DUE_MARKER) {
        let k = choose|k: int| 0 <= k < t.name.len() && t.name[k] == DUE_MARKER;
        assert(t.name[k] != DUE_MARKER);
    }
}

/// Parse a whole input against the current local date, sampled once for
/// the whole parse.
pub fn parse_input(input: &str) -> (r: Vec<Task>)
    ensures
        exists|today: Date|
            #[trigger] today_ok(today) && r@.map_values(|t: Task| t@) == spec_parse_input(
                input@,
                today,
            ),
        r@.len() == count_task_lines(spec_lines(input@)),
{
    let t = today_date();
    let r = parse_input_as_of(input, &t);
    proof {
        assert(today_ok(t) && r@.map_values(|t: Task| t@) == spec_parse_input(input@, t));
        lemma_task_count(input@, t);
    }
    r
}

} // verus!
