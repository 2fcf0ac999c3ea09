use cardbe::board::{column_index, task_position};
use cardbe::models::{Archive, Column, ColumnSort, StoredData, Task};

fn task(id: i64, title: &str) -> Task {
    Task {
        id,
        title: title.into(),
        ..Task::default()
    }
}

fn column(id: i64, tasks: Vec<Task>) -> Column {
    Column {
        id,
        name: format!("Column {id}"),
        color: String::new(),
        sort_order: ColumnSort::Custom,
        tasks,
    }
}

fn sample() -> StoredData {
    let mut data = StoredData::default();
    data.columns = vec![column(1, vec![task(10, "A"), task(11, "B")]), column(2, vec![task(20, "C")])];
    data.next_column_id = 3;
    data.next_task_id = 21;
    data
}

fn ids(data: &StoredData, c: usize) -> Vec<i64> {
    data.columns[c].tasks.iter().map(|t| t.id).collect()
}

#[test]
fn lookups_find_the_first_match_and_name_what_is_missing() {
    let data = sample();
    assert_eq!(column_index(&data, 2), Ok(1));
    assert_eq!(column_index(&data, 9), Err("Column not found: 9".to_string()));
    assert_eq!(task_position(&data, 11), Ok((0, 1)));
    assert_eq!(task_position(&data, -4), Err("Task not found: -4".to_string()));
}

#[test]
fn adding_a_column_uses_the_next_identifier() {
    let mut data = sample();
    assert_eq!(data.add_column("Done".into(), "green".into()), Ok(3));
    assert_eq!(data.next_column_id, 4);
    assert_eq!(data.columns[2].name, "Done");
    assert!(data.columns[2].tasks.is_empty());
}

#[test]
fn moving_a_task_places_it_before_the_named_task_or_last() {
    let mut data = sample();
    data.move_task(20, 1, Some(11)).unwrap();
    assert_eq!(ids(&data, 0), vec![10, 20, 11]);
    assert!(data.columns[1].tasks.is_empty());
    data.move_task(10, 2, None).unwrap();
    assert_eq!(ids(&data, 1), vec![10]);
    let unchanged = data.clone();
    data.move_task(10, 2, Some(10)).unwrap();
    assert_eq!(ids(&data, 1), ids(&unchanged, 1));
    assert_eq!(data.move_task(99, 1, None), Err("Task not found: 99".to_string()));
}

#[test]
fn moving_a_column_in_front_of_another() {
    let mut data = sample();
    data.move_column(2, Some(1)).unwrap();
    assert_eq!(data.columns.iter().map(|c| c.id).collect::<Vec<_>>(), vec![2, 1]);
    data.move_column(2, None).unwrap();
    assert_eq!(data.columns.iter().map(|c| c.id).collect::<Vec<_>>(), vec![1, 2]);
}

#[test]
fn adding_a_task_after_another_takes_the_next_identifier() {
    let mut data = sample();
    let mut new_task = task(-1, "New");
    new_task.labels = vec!["urgent".into()];
    assert_eq!(data.add_task(1, new_task, Some(10)), Ok(21));
    assert_eq!(ids(&data, 0), vec![10, 21, 11]);
    assert_eq!(data.label_recency, vec!["urgent".to_string()]);
    assert_eq!(data.add_task(7, task(-1, "X"), None), Err("Column not found: 7".to_string()));
}

#[test]
fn deleting_tasks_and_columns() {
    let mut data = sample();
    data.delete_task(11).unwrap();
    assert_eq!(ids(&data, 0), vec![10]);
    data.delete_column(2).unwrap();
    assert_eq!(data.columns.len(), 1);
    assert_eq!(data.delete_column(2), Err("Column not found: 2".to_string()));
}

#[test]
fn archiving_and_restoring_a_task() {
    let mut data = sample();
    data.archive_task(11, 500).unwrap();
    assert_eq!(ids(&data, 0), vec![10]);
    assert_eq!(data.archives.len(), 1);
    assert_eq!(data.archives[0].time, 500);
    data.unarchive_task(2, 11).unwrap();
    assert_eq!(ids(&data, 1), vec![20, 11]);
    assert!(data.archives.is_empty());
    assert_eq!(data.unarchive_task(2, 11), Err("Archived task not found: 11".to_string()));
}

#[test]
fn archiving_every_task_of_a_column() {
    let mut data = sample();
    data.archive_all_tasks(1, 900).unwrap();
    assert!(data.columns[0].tasks.is_empty());
    assert_eq!(
        data.archives.iter().map(|a: &Archive| (a.task.id, a.time)).collect::<Vec<_>>(),
        vec![(10, 900), (11, 900)]
    );
}
