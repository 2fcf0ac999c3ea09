use cardbe::models::{default_id, default_recurrence_interval, default_true, Column, ColumnSort, StoredData, Task};

#[test]
fn due_date_sort_keeps_undated_tasks_last_in_both_directions() {
    let tasks = vec![
        Task {
            id: 1,
            title: "Undated".into(),
            ..Task::default()
        },
        Task {
            id: 2,
            title: "Later".into(),
            due_time: Some(20),
            ..Task::default()
        },
        Task {
            id: 3,
            title: "Earlier".into(),
            due_time: Some(10),
            ..Task::default()
        },
    ];
    let mut stored = StoredData::default();
    stored.columns.push(Column {
        id: 1,
        name: "Todo".into(),
        color: String::new(),
        sort_order: ColumnSort::DueDateAsc,
        tasks,
    });

    stored.sort_column_tasks();
    assert_eq!(
        stored.columns[0]
            .tasks
            .iter()
            .map(|task| task.id)
            .collect::<Vec<_>>(),
        vec![3, 2, 1]
    );

    stored.columns[0].sort_order = ColumnSort::DueDateDesc;
    stored.sort_column_tasks();
    assert_eq!(
        stored.columns[0]
            .tasks
            .iter()
            .map(|task| task.id)
            .collect::<Vec<_>>(),
        vec![2, 3, 1]
    );
}

#[test]
fn sort_orders_have_stable_names() {
    for sort in [ColumnSort::Custom, ColumnSort::DueDateAsc, ColumnSort::DueDateDesc] {
        assert_eq!(ColumnSort::from_str(sort.as_str()), sort);
    }
    assert_eq!(ColumnSort::DueDateDesc.as_str(), "due_date_desc");
    assert_eq!(ColumnSort::from_str("unknown"), ColumnSort::Custom);
}

#[test]
fn defaults_of_stored_fields() {
    assert_eq!(default_id(), -1);
    assert_eq!(default_recurrence_interval(), 1);
    assert!(default_true());
    let data = StoredData::default();
    assert!(!data.settings.notify_enabled);
    assert!(data.settings.global_shortcuts_enabled);
}

#[test]
fn migration_repairs_identifiers_and_refuses_newer_schemas() {
    let mut data = StoredData::default();
    data.schema_version = 1;
    data.columns.push(Column {
        id: -1,
        name: "A".into(),
        color: String::new(),
        sort_order: ColumnSort::Custom,
        tasks: vec![
            Task { id: 4, ..Task::default() },
            Task { id: 4, ..Task::default() },
        ],
    });
    assert!(data.can_migrate());
    let (migrated, changed) = data.clone().migrate().unwrap();
    assert!(changed);
    assert_eq!(migrated.schema_version, StoredData::default().schema_version);
    assert_eq!(migrated.columns[0].id, 0);
    assert_eq!(migrated.columns[0].tasks[0].id, 4);
    assert_eq!(migrated.columns[0].tasks[1].id, 5);
    assert_eq!(migrated.next_task_id, 6);

    let mut newer = StoredData::default();
    newer.schema_version = 99;
    assert!(newer.migrate().is_err());
}

#[test]
fn touching_a_label_moves_it_to_the_front() {
    let mut data = StoredData::default();
    data.label_recency = vec!["a".into(), "b".into(), "c".into()];
    data.touch_label("b".into());
    assert_eq!(data.label_recency, vec!["b".to_string(), "a".to_string(), "c".to_string()]);
}

#[test]
fn allocating_identifiers_counts_up() {
    let mut data = StoredData::default();
    assert_eq!(data.allocate_task_id(), Ok(0));
    assert_eq!(data.allocate_task_id(), Ok(1));
    data.next_column_id = i64::MAX;
    assert!(data.allocate_column_id().is_err());
}

#[test]
fn migrating_migrated_data_changes_nothing() {
    let mut data = StoredData::default();
    data.schema_version = 3;
    data.next_task_id = -7;
    data.label_recency = vec!["x".into(), "work".into(), "work".into()];
    data.columns.push(Column {
        id: 2,
        name: "A".into(),
        color: String::new(),
        sort_order: ColumnSort::Custom,
        tasks: vec![
            Task { id: -3, labels: vec!["work".into()], ..Task::default() },
            Task { id: 9, ..Task::default() },
            Task { id: 9, ..Task::default() },
        ],
    });
    data.columns.push(Column {
        id: 2,
        name: "B".into(),
        color: String::new(),
        sort_order: ColumnSort::Custom,
        tasks: Vec::new(),
    });
    let (once, changed) = data.migrate().unwrap();
    assert!(changed);
    assert!(once.can_migrate());
    let (twice, changed_again) = once.clone().migrate().unwrap();
    assert!(!changed_again);
    let column_ids = |d: &StoredData| d.columns.iter().map(|c| c.id).collect::<Vec<_>>();
    let task_ids = |d: &StoredData| d.columns.iter().flat_map(|c| c.tasks.iter().map(|t| t.id)).collect::<Vec<_>>();
    assert_eq!(column_ids(&once), vec![2, 3]);
    assert_eq!(task_ids(&once), vec![10, 9, 11]);
    assert_eq!(column_ids(&twice), column_ids(&once));
    assert_eq!(task_ids(&twice), task_ids(&once));
    assert_eq!(twice.next_column_id, once.next_column_id);
    assert_eq!(twice.next_task_id, once.next_task_id);
    assert_eq!(twice.next_template_id, once.next_template_id);
    assert_eq!(once.label_recency, vec!["work".to_string()]);
    assert_eq!(twice.label_recency, once.label_recency);
    assert_eq!(twice.schema_version, once.schema_version);
}
