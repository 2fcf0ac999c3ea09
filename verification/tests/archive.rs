use cardbe::archive::{advance_due_time, next_recurring_task};
use cardbe::models::{Recurrence, RecurrenceFrequency, Task, TaskItem};

fn recurring_task(due_time: u128, frequency: RecurrenceFrequency) -> Task {
    Task {
        id: 4,
        title: "Routine".into(),
        start_time: due_time - 3_600_000,
        due_time: Some(due_time),
        recurrence: Some(Recurrence {
            frequency,
            interval: 1,
        }),
        items: vec![TaskItem {
            id: "step".into(),
            text: "Do it".into(),
            completed: true,
        }],
        ..Task::default()
    }
}

#[test]
fn daily_recurrence_skips_missed_occurrences_and_resets_checklist() {
    let task = recurring_task(1_700_000_000_000, RecurrenceFrequency::Daily);
    let next = next_recurring_task(&task, 1_700_000_000_000 + 3 * 86_400_000, 8)
        .unwrap()
        .unwrap();

    assert_eq!(next.id, 8);
    assert_eq!(next.due_time, Some(1_700_000_000_000 + 4 * 86_400_000));
    assert_eq!(next.start_time, task.start_time + 4 * 86_400_000);
    assert!(!next.items[0].completed);
}

#[test]
fn monthly_recurrence_clamps_to_the_end_of_the_month() {
    let task = recurring_task(1_706_659_200_000, RecurrenceFrequency::Monthly); // 2024-01-31 UTC
    let next = next_recurring_task(&task, 1_706_659_200_000, 9)
        .unwrap()
        .unwrap();

    assert_eq!(next.due_time, Some(1_709_164_800_000)); // 2024-02-29 UTC
}

#[test]
fn weekly_recurrence_advances_by_whole_weeks() {
    let due = 1_700_000_000_000u128;
    assert_eq!(
        advance_due_time(due, RecurrenceFrequency::Weekly, 2).unwrap(),
        due + 14 * 86_400_000
    );
}

#[test]
fn a_task_without_recurrence_does_not_repeat() {
    let task = Task {
        id: 1,
        title: "Once".into(),
        due_time: Some(100),
        ..Task::default()
    };
    assert!(next_recurring_task(&task, 200, 2).unwrap().is_none());
}

#[test]
fn a_due_time_beyond_the_calendar_is_refused() {
    assert!(advance_due_time(u128::MAX, RecurrenceFrequency::Daily, 1).is_err());
}

fn plain(id: i64) -> Task {
    Task { id, title: format!("Task {id}"), ..Task::default() }
}

fn board() -> cardbe::models::StoredData {
    let mut data = cardbe::models::StoredData::default();
    data.columns = vec![cardbe::models::Column {
        id: 1,
        name: "Todo".into(),
        color: String::new(),
        sort_order: cardbe::models::ColumnSort::Custom,
        tasks: vec![plain(10), plain(11), plain(12)],
    }];
    data.next_task_id = 13;
    data
}

#[test]
fn restoring_an_archived_task_puts_it_at_the_end_of_its_column() {
    let mut data = board();
    data.archive_task(11, 500).unwrap();
    assert_eq!(data.columns[0].tasks.iter().map(|t| t.id).collect::<Vec<_>>(), vec![10, 12]);
    assert_eq!(data.archives.len(), 1);
    assert_eq!(data.archives[0].time, 500);
    data.unarchive_task(1, 11).unwrap();
    assert_eq!(data.columns[0].tasks.iter().map(|t| t.id).collect::<Vec<_>>(), vec![10, 12, 11]);
    assert!(data.archives.is_empty());
    assert_eq!(data.next_task_id, 13);
}

#[test]
fn archiving_and_restoring_refuse_what_is_missing() {
    let mut data = board();
    assert_eq!(data.archive_task(99, 1), Err("Task not found: 99".to_string()));
    assert_eq!(data.unarchive_task(5, 10), Err("Column not found: 5".to_string()));
    assert_eq!(data.unarchive_task(1, 10), Err("Archived task not found: 10".to_string()));
    assert_eq!(data.columns[0].tasks.len(), 3);
}
