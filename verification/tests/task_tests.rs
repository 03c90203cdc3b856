use chrono::{Datelike, Duration, Local, NaiveDate};
use marktask::dates::parse_date_arg;
use marktask::Task;
use marktask::{
    parse_input, parse_priority, Date, DateRangeFilter, FilterPipeline, OverdueFilter, Priority,
    TaskFilter,
};

fn from_naive(d: NaiveDate) -> Date {
    Date { year: d.year(), month: d.month() as u8, day: d.day() as u8 }
}

#[test]
fn test_overdue_tasks() {
    // Generate dynamic dates for the tasks
    let today = Local::now().date_naive();
    let yesterday = today - Duration::days(1);
    let tomorrow = today + Duration::days(1);

    // Task strings with dynamic dates
    let input = format!(
        "- [ ] Task due today 📅 {}\n\
             - [ ] Overdue task 📅 {}\n\
             - [ ] Not overdue task 📅 {}",
        today, yesterday, tomorrow
    );

    // Parse the input string to tasks
    let tasks = parse_input(&input);

    // Expected overdue statuses
    let expected_overdue = vec![
        false, // Task due today is not considered overdue
        true,  // Task due yesterday is overdue
        false, // Task due tomorrow is not overdue
    ];

    // Compare each task's overdue status with the expected status
    assert_eq!(
        tasks.len(),
        expected_overdue.len(),
        "Number of tasks parsed does not match expected number"
    );
    for (task, &expected) in tasks.iter().zip(expected_overdue.iter()) {
        assert_eq!(
            task.overdue, expected,
            "Task overdue status does not match expected value"
        );
    }
}

#[test]
fn test_overdue_filter_pipeline() {
    // Create a date for today and a date in the past
    let today = from_naive(Local::now().date_naive());
    let past_date = from_naive(Local::now().date_naive() - Duration::days(1));

    // Create sample tasks
    let tasks = vec![
        Task {
            name: "Task due today".to_string(),
            completed: false,
            due: Some(today),
            overdue: false,
            start: None,
            scheduled: None,
            priority: Priority::NoPriority,
        },
        Task {
            name: "Overdue task".to_string(),
            completed: false,
            due: Some(past_date),
            overdue: true,
            start: None,
            scheduled: None,
            priority: Priority::NoPriority,
        },
        Task {
            name: "No due date task".to_string(),
            completed: false,
            due: None,
            overdue: false,
            start: None,
            scheduled: None,
            priority: Priority::NoPriority,
        },
    ];

    // Initialize the filter pipeline and add the OverdueFilter
    let mut pipeline = FilterPipeline::new();
    pipeline.add_filter(TaskFilter::Overdue(OverdueFilter {
        show_overdue: false,
    }));

    // Apply the pipeline filters
    let filtered_tasks = pipeline.apply(&tasks);

    // Assert that the filtered tasks do not include the overdue task
    assert_eq!(
        filtered_tasks.len(),
        2,
        "Filtered tasks should not include overdue tasks"
    );
    assert!(
        filtered_tasks.iter().all(|task| !task.overdue),
        "All filtered tasks should not be overdue"
    );
}

#[test]
fn test_task_priorities() {
    // Example task descriptions with various priority signifiers
    let tasks_data = vec![
        ("Do something important 🔺", Priority::Highest),
        ("Do something else ⏫", Priority::High),
        ("Regular task 🔼", Priority::Medium),
        ("Maybe do this sometime 🔽", Priority::Low),
        ("Not important ⏬", Priority::Lowest),
        ("An ordinary task", Priority::NoPriority), // No signifier indicates no specific priority
    ];

    // Iterate over the task descriptions and their expected priorities
    for (description, expected_priority) in tasks_data {
        let d = description.to_string();
        let task = Task {
            name: d,
            completed: false,
            due: Some(Date { year: 2022, month: 1, day: 1 }), // Dummy date
            overdue: false,
            scheduled: None,
            start: None,
            priority: parse_priority(description).1,
        };

        // Assert that the parsed priority matches the expected priority
        assert_eq!(
            task.priority, expected_priority,
            "Priority did not match for task description: {}",
            description
        );
    }
}

#[test]
fn test_date_range_filtering() {
    // Define a set of tasks with various due dates
    let base_date = NaiveDate::from_ymd_opt(2024, 1, 1).unwrap();
    let tasks = vec![
        Task {
            name: "Task 1".to_string(),
            completed: false,
            due: Some(from_naive(base_date)),
            overdue: true,
            scheduled: None,
            start: None,
            priority: Priority::NoPriority,
        },
        Task {
            name: "Task 2".to_string(),
            completed: false,
            due: Some(from_naive(base_date + Duration::days(5))),
            overdue: true,
            scheduled: None,
            start: None,
            priority: Priority::NoPriority,
        },
        Task {
            name: "Task 3".to_string(),
            completed: false,
            due: Some(from_naive(base_date + Duration::days(10))),
            overdue: true,
            scheduled: None,
            start: None,
            priority: Priority::NoPriority,
        },
        Task {
            name: "Task without date".to_string(),
            completed: false,
            due: None,
            overdue: false,
            scheduled: None,
            start: None,
            priority: Priority::NoPriority,
        },
    ];

    // Define test cases
    let test_cases = vec![
        (
            Some(from_naive(base_date)),
            Some(from_naive(base_date + Duration::days(10))),
            3,
            "Both 'from' and 'to' specified",
        ),
        (
            Some(from_naive(base_date + Duration::days(5))),
            None,
            2,
            "'From' specified only",
        ),
        (
            None,
            Some(from_naive(base_date + Duration::days(5))),
            2,
            "'To' specified only",
        ),
        (None, None, 4, "Neither 'from' nor 'to' specified"),
    ];

    for (from_date, to_date, expected_count, case_description) in test_cases {
        let mut pipeline = FilterPipeline::new();
        pipeline.add_filter(TaskFilter::DateRange(DateRangeFilter { from_date, to_date }));

        let filtered_tasks = pipeline.apply(&tasks);

        assert_eq!(
            filtered_tasks.len(),
            expected_count,
            "Case '{}': Expected {} tasks, found {}",
            case_description,
            expected_count,
            filtered_tasks.len()
        );
    }
}

#[test]
fn test_relative_date_range_filtering() {
    let today = Local::now().date_naive();
    let tasks = vec![
        Task {
            name: "Task due today".to_string(),
            completed: false,
            due: Some(from_naive(today)),
            overdue: false,
            scheduled: None,
            start: None,
            priority: Priority::NoPriority,
        },
        Task {
            name: "Task due in 5 days".to_string(),
            completed: false,
            due: Some(from_naive(today + Duration::days(5))),
            overdue: false,
            scheduled: None,
            start: None,
            priority: Priority::NoPriority,
        },
        Task {
            name: "Task due in 10 days".to_string(),
            completed: false,
            due: Some(from_naive(today + Duration::days(10))),
            overdue: false,
            scheduled: None,
            start: None,
            priority: Priority::NoPriority,
        },
        Task {
            name: "Task without date".to_string(),
            completed: false,
            due: None,
            overdue: false,
            scheduled: None,
            start: None,
            priority: Priority::NoPriority,
        },
    ];

    // Define test cases with relative dates
    let test_cases = vec![
        (
            parse_date_arg(Some("-1d")),
            parse_date_arg(Some("+2w")),
            3,
            "Tasks within last day to next week",
        ),
        (
            None,
            parse_date_arg(Some("+1w")),
            2,
            "Tasks up to one week from today",
        ),
        (
            parse_date_arg(Some("-1d")),
            None,
            3,
            "Tasks from yesterday onwards",
        ),
        (None, None, 4, "No date filtering"),
    ];

    for (from_date, to_date, expected_count, case_description) in test_cases {
        let mut pipeline = FilterPipeline::new();
        let date_range_filter = DateRangeFilter { from_date, to_date };
        pipeline.add_filter(TaskFilter::DateRange(date_range_filter));

        let filtered_tasks = pipeline.apply(&tasks);

        assert_eq!(
            filtered_tasks.len(),
            expected_count,
            "Case '{}': Expected {} tasks, found {}",
            case_description,
            expected_count,
            filtered_tasks.len()
        );
    }
}
