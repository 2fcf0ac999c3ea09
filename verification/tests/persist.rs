use cardbe::models::{Archive, Column, ColumnSort, StoredData, Task, TaskTemplate};
use cardbe::persist::{
    changed_metadata, index_i64, plan_board_diff, plan_store_diff, stale_metadata, task_locations,
};
use std::collections::HashMap;

fn task(id: i64, title: &str) -> Task {
    Task {
        id,
        title: title.into(),
        ..Task::default()
    }
}

fn board(tasks: Vec<Task>) -> StoredData {
    let mut data = StoredData::default();
    data.columns.push(Column {
        id: 0,
        name: "Todo".into(),
        color: String::new(),
        sort_order: ColumnSort::Custom,
        tasks,
    });
    data
}

/// The positions the rows hold after `data` was written to an empty board.
fn written(data: &StoredData) -> (HashMap<i64, i64>, HashMap<i64, i64>) {
    let plan = plan_board_diff(&StoredData::default(), data, &HashMap::new(), &HashMap::new(), true).unwrap();
    (plan.rows.column_positions, plan.rows.task_positions)
}

#[test]
fn updating_one_task_writes_only_that_row() {
    let before = board(vec![task(0, "First"), task(1, "Second")]);
    let (columns, tasks) = written(&before);
    let mut after = before.clone();
    after.columns[0].tasks[1].title = "Changed".into();

    let plan = plan_board_diff(&before, &after, &columns, &tasks, true).unwrap();
    assert_eq!(plan.stats.tasks_changed, 1);
    assert_eq!(plan.stats.columns_changed, 0);
    assert_eq!(plan.stats.metadata_changed, 0);
    assert_eq!(plan.rows.task_writes.len(), 1);
    assert_eq!(plan.rows.task_writes[0].0, 0);
    assert_eq!(plan.rows.task_writes[0].1, 1);
    assert!(plan.rows.deleted_task_ids.is_empty());
}

#[test]
fn moving_a_task_writes_only_the_moved_row() {
    let before = board((0..5).map(|id| task(id, &format!("Task {id}"))).collect());
    let (columns, tasks) = written(&before);
    let mut after = before.clone();
    let moved = after.columns[0].tasks.remove(0);
    after.columns[0].tasks.push(moved);

    let plan = plan_board_diff(&before, &after, &columns, &tasks, true).unwrap();
    assert_eq!(plan.stats.tasks_changed, 1);
    assert_eq!(plan.rows.task_writes.len(), 1);
    let (c, t, position) = plan.rows.task_writes[0];
    assert_eq!(after.columns[c].tasks[t].id, 0);
    assert!(position > tasks[&4]);
}

#[test]
fn a_first_save_writes_every_row_in_increasing_positions() {
    let data = board(vec![task(5, "A"), task(3, "B"), task(9, "C")]);
    let plan = plan_board_diff(&StoredData::default(), &data, &HashMap::new(), &HashMap::new(), true).unwrap();
    assert_eq!(plan.stats.columns_changed, 1);
    assert_eq!(plan.stats.tasks_changed, 3);
    let p = &plan.rows.task_positions;
    assert!(p[&5] < p[&3] && p[&3] < p[&9]);
}

#[test]
fn removed_rows_are_deleted() {
    let before = board(vec![task(1, "Keep"), task(2, "Drop")]);
    let (columns, tasks) = written(&before);
    let mut after = before.clone();
    after.columns[0].tasks.pop();
    let plan = plan_board_diff(&before, &after, &columns, &tasks, true).unwrap();
    assert_eq!(plan.rows.deleted_task_ids, vec![2]);
    assert_eq!(plan.stats.tasks_changed, 1);
    assert!(plan.rows.task_writes.is_empty());
}

#[test]
fn archives_and_templates_are_rewritten_only_when_they_change() {
    let mut before = board(vec![]);
    before.templates.push(TaskTemplate { id: 1, name: "Weekly".into(), task: task(-1, "Plan") });
    let (columns, tasks) = written(&before);
    let mut after = before.clone();
    after.archives.push(Archive { time: 5, task: task(4, "Done") });
    let plan = plan_board_diff(&before, &after, &columns, &tasks, true).unwrap();
    assert!(plan.rewrite_archives);
    assert!(!plan.rewrite_templates);
    assert_eq!(plan.stats.archives_changed, 1);
    let without = plan_board_diff(&before, &after, &columns, &tasks, false).unwrap();
    assert!(!without.rewrite_archives);
    assert_eq!(without.stats.archives_changed, 0);
}

#[test]
fn the_single_board_store_syncs_archives_by_identifier() {
    let mut before = board(vec![]);
    before.archives = vec![
        Archive { time: 1, task: task(10, "Ten") },
        Archive { time: 2, task: task(11, "Eleven") },
    ];
    let mut after = before.clone();
    after.archives.remove(0);
    let plan = plan_store_diff(&before, &after, &HashMap::new(), &HashMap::new(), true).unwrap();
    assert_eq!(plan.deleted_archive_ids, vec![10]);
    // The remaining archive moved from position 1 to 0, so it is written again.
    assert_eq!(plan.written_archives, vec![0]);
    assert_eq!(plan.stats.archives_changed, 2);
}

#[test]
fn a_repeated_task_identifier_is_located_at_its_last_task() {
    let data = board(vec![task(7, "First"), task(7, "Second")]);
    let locations = task_locations(&data);
    assert_eq!(locations[&7], (0, 0, 1));
}

#[test]
fn metadata_is_written_only_where_it_differs() {
    let current = vec![Some("8".to_string()), None, Some("[]".to_string())];
    let values = vec!["8".to_string(), "3".to_string(), "[\"a\"]".to_string()];
    assert_eq!(changed_metadata(&current, &values), vec![1, 2]);
    let was = vec!["1".to_string(), "2".to_string()];
    let now = vec!["1".to_string(), "3".to_string()];
    assert_eq!(stale_metadata(&was, &now, &vec![false, true]), vec![0, 1]);
    assert_eq!(stale_metadata(&was, &was, &vec![true, true]), Vec::<usize>::new());
}

#[test]
fn positions_fit_in_a_signed_row_number() {
    assert_eq!(index_i64(7), Ok(7));
    assert_eq!(index_i64(usize::MAX), Err("out of range integral type conversion attempted".to_string()));
}
