use marktask::{parse_input_as_of, parse_priority, Date, Priority};

fn fixed_today() -> Date {
    Date { year: 2025, month: 7, day: 20 }
}

#[test]
fn end_to_end_annotated_line() {
    // A line with a due annotation and a priority signifier yields a fully
    // populated task with a cleaned name
    let tasks = parse_input_as_of("- [ ] Buy milk 📅 2025-07-14 🔺", &fixed_today());
    assert_eq!(tasks.len(), 1);
    assert_eq!(tasks[0].name, "Buy milk");
    assert_eq!(tasks[0].completed, false);
    assert_eq!(tasks[0].due, Some(Date { year: 2025, month: 7, day: 14 }));
    assert_eq!(tasks[0].scheduled, None);
    assert_eq!(tasks[0].start, None);
    assert_eq!(tasks[0].overdue, true);
    assert_eq!(tasks[0].priority, Priority::Highest);
}

#[test]
fn end_to_end_completion_order() {
    // Two lines parse to two tasks in input order with their own checkboxes
    let tasks = parse_input_as_of("- [x] Done\n- [ ] Not done", &fixed_today());
    assert_eq!(tasks.len(), 2);
    assert_eq!(tasks[0].name, "Done");
    assert_eq!(tasks[0].completed, true);
    assert_eq!(tasks[1].name, "Not done");
    assert_eq!(tasks[1].completed, false);
}

#[test]
fn non_matching_lines_yield_no_task() {
    // Only lines of the checklist shape contribute tasks
    let input = "a plain line\n\n- [ ] real task\n-[] broken\n* [ ] not a dash\n  - [x] indented";
    let tasks = parse_input_as_of(input, &fixed_today());
    assert_eq!(tasks.len(), 2);
    assert_eq!(tasks[0].name, "real task");
    assert_eq!(tasks[1].name, "indented");
    assert_eq!(tasks[1].completed, true);
}

#[test]
fn empty_input_yields_no_task() {
    let tasks = parse_input_as_of("", &fixed_today());
    assert_eq!(tasks.len(), 0);
}

#[test]
fn invalid_annotation_date_is_scrubbed() {
    // A well-formed annotation whose date fails calendar validation yields
    // no due date, yet disappears from the name
    let tasks = parse_input_as_of("- [ ] Pay rent 📅 2025-02-30", &fixed_today());
    assert_eq!(tasks.len(), 1);
    assert_eq!(tasks[0].due, None);
    assert_eq!(tasks[0].overdue, false);
    assert_eq!(tasks[0].name, "Pay rent");
}

#[test]
fn all_three_annotations_parse_independently() {
    let tasks = parse_input_as_of(
        "- [ ] All dates 📅 2025-07-14 ⏳ 2025-07-15 🛫 2024-02-07",
        &fixed_today(),
    );
    assert_eq!(tasks.len(), 1);
    assert_eq!(tasks[0].name, "All dates");
    assert_eq!(tasks[0].due, Some(Date { year: 2025, month: 7, day: 14 }));
    assert_eq!(tasks[0].scheduled, Some(Date { year: 2025, month: 7, day: 15 }));
    assert_eq!(tasks[0].start, Some(Date { year: 2024, month: 2, day: 7 }));
}

#[test]
fn each_annotation_validates_independently() {
    let input = "\
- [ ] Wrong scheduled date 📅 2025-07-14 ⏳ 2025-17-14
- [ ] Both dates wrong 📅 2025-27-14 ⏳ 2025-17-14
- [ ] Start with invalid date 🛫 2024-00-07
- [ ] Start and due 📅 2025-07-14 🛫 2024-02-07";
    let tasks = parse_input_as_of(input, &fixed_today());
    assert_eq!(tasks.len(), 4);

    assert_eq!(tasks[0].name, "Wrong scheduled date");
    assert_eq!(tasks[0].due, Some(Date { year: 2025, month: 7, day: 14 }));
    assert_eq!(tasks[0].scheduled, None);

    assert_eq!(tasks[1].name, "Both dates wrong");
    assert_eq!(tasks[1].due, None);
    assert_eq!(tasks[1].scheduled, None);

    assert_eq!(tasks[2].name, "Start with invalid date");
    assert_eq!(tasks[2].start, None);

    assert_eq!(tasks[3].name, "Start and due");
    assert_eq!(tasks[3].due, Some(Date { year: 2025, month: 7, day: 14 }));
    assert_eq!(tasks[3].start, Some(Date { year: 2024, month: 2, day: 7 }));
}

#[test]
fn due_exactly_today_is_not_overdue() {
    let tasks = parse_input_as_of("- [ ] On the dot 📅 2025-07-20", &fixed_today());
    assert_eq!(tasks.len(), 1);
    assert_eq!(tasks[0].due, Some(fixed_today()));
    assert_eq!(tasks[0].overdue, false);
}

#[test]
fn priority_precedence_picks_highest() {
    // With several signifiers the highest-precedence one decides, and only
    // its occurrence is stripped
    let (name, priority) = parse_priority("task ⏬ then 🔺");
    assert_eq!(priority, Priority::Highest);
    assert_eq!(name, "task ⏬ then");
}

#[test]
fn whitespace_runs_collapse_in_names() {
    let tasks = parse_input_as_of("- [ ]   spaced   out\tname  ", &fixed_today());
    assert_eq!(tasks.len(), 1);
    assert_eq!(tasks[0].name, "spaced out name");
}
