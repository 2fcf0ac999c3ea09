use cardbe::models::Task;
use cardbe::notifications::{expired_notification, notification_key};

fn task_with_due_time(due_time: u128) -> Task {
    Task {
        id: 7,
        title: "Follow up".into(),
        due_time: Some(due_time),
        ..Task::default()
    }
}

#[test]
fn notification_key_changes_when_task_is_rescheduled() {
    let first = task_with_due_time(100);
    let rescheduled = task_with_due_time(200);

    assert_eq!(notification_key(1, &first, 300), Some((1, 7, 100)));
    assert_eq!(notification_key(1, &rescheduled, 300), Some((1, 7, 200)));
}

#[test]
fn notification_key_keeps_same_task_id_on_different_boards_distinct() {
    let task = task_with_due_time(100);
    assert_ne!(
        notification_key(1, &task, 300),
        notification_key(2, &task, 300)
    );
}

#[test]
fn notification_key_only_exists_for_expired_valid_tasks() {
    let mut task = task_with_due_time(500);
    assert_eq!(notification_key(1, &task, 300), None);

    task.due_time = None;
    assert_eq!(notification_key(1, &task, 300), None);

    task.due_time = Some(100);
    task.title.clear();
    assert_eq!(notification_key(1, &task, 300), None);
}

#[test]
fn notification_identifies_the_board() {
    assert_eq!(
        expired_notification("Work", "Follow up"),
        (
            "Task Expired — Work".into(),
            "Task \"Follow up\" has passed its due date".into()
        )
    );
}
