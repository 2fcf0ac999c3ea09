use cardbe::clock::{current_time_millis, now_millis};
use cardbe::models::{Column, ColumnSort, StoredData, Task};
use cardbe::notifications::{announcements, expired_tasks};

fn board_with(tasks: Vec<Task>) -> StoredData {
    let mut data = StoredData::default();
    data.columns.push(Column {
        id: 1,
        name: "Todo".into(),
        color: String::new(),
        sort_order: ColumnSort::Custom,
        tasks,
    });
    data
}

fn due(id: i64, title: &str, due_time: u128) -> Task {
    Task { id, title: title.into(), due_time: Some(due_time), ..Task::default() }
}

#[test]
fn each_expired_task_is_announced_once() {
    let boards = vec![
        (1, "Work".to_string(), board_with(vec![due(7, "Report", 100), due(8, "Later", 900)])),
        (2, "Home".to_string(), board_with(vec![due(7, "Dishes", 50)])),
    ];
    let mut notified = Vec::new();
    let first = announcements(&mut notified, &boards, 300);
    assert_eq!(
        first,
        vec![
            ("Work".to_string(), "Report".to_string()),
            ("Home".to_string(), "Dishes".to_string()),
        ]
    );
    assert_eq!(notified, vec![(1, 7, 100), (2, 7, 50)]);
    let again = announcements(&mut notified, &boards, 300);
    assert!(again.is_empty());
    assert_eq!(notified.len(), 2);
}

#[test]
fn expired_tasks_of_a_board_in_order() {
    let data = board_with(vec![due(1, "A", 10), due(2, "B", 500), due(3, "", 10)]);
    let expired = expired_tasks(&data, 1, 100);
    assert_eq!(expired.iter().map(|t| t.id).collect::<Vec<_>>(), vec![1]);
}

#[test]
fn the_clock_reads_the_present() {
    let now = current_time_millis().unwrap();
    assert!(now > 1_600_000_000_000);
    assert!(now_millis().unwrap() >= 1_600_000_000_000);
}

#[test]
fn clock_readings_fit_a_duration() {
    let now = current_time_millis().unwrap();
    assert!(now <= cardbe::clock::MAX_DURATION_MILLIS);
    assert!(now >= 1_600_000_000_000);
}
