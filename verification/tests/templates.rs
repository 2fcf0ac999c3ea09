use cardbe::models::{Column, ColumnSort, Recurrence, RecurrenceFrequency, StoredData, Task, TaskItem};
use cardbe::notes::{edited_note, quick_note_fields};
use cardbe::models::Note;

fn board() -> StoredData {
    let mut data = StoredData::default();
    data.columns.push(Column {
        id: 1,
        name: "Todo".into(),
        color: String::new(),
        sort_order: ColumnSort::Custom,
        tasks: vec![Task {
            id: 3,
            title: "Weekly review".into(),
            start_time: 10,
            due_time: Some(20),
            recurrence: Some(Recurrence { frequency: RecurrenceFrequency::Weekly, interval: 1 }),
            items: vec![TaskItem { id: "a".into(), text: "Inbox".into(), completed: true }],
            ..Task::default()
        }],
    });
    data
}

#[test]
fn a_template_keeps_the_task_without_its_schedule() {
    let mut data = board();
    let template = data.save_task_template(3, "  Review ").unwrap();
    assert_eq!(template.id, 0);
    assert_eq!(template.name, "Review");
    assert_eq!(template.task.id, -1);
    assert_eq!(template.task.due_time, None);
    assert_eq!(template.task.start_time, 0);
    assert!(template.task.recurrence.is_none());
    assert!(!template.task.items[0].completed);
    assert_eq!(data.templates.len(), 1);
    assert_eq!(data.next_template_id, 1);
}

#[test]
fn templates_are_checked_updated_and_deleted() {
    let mut data = board();
    assert_eq!(data.save_task_template(3, "  ").unwrap_err(), "Template name cannot be empty");
    assert_eq!(data.save_task_template(8, "X").unwrap_err(), "Task not found: 8");
    data.save_task_template(3, "Review").unwrap();
    let renamed = data
        .update_task_template(0, "Plan", Task { title: "Plan week".into(), ..Task::default() })
        .unwrap();
    assert_eq!(renamed.name, "Plan");
    assert_eq!(data.templates[0].task.title, "Plan week");
    assert_eq!(
        data.update_task_template(0, "Plan", Task::default()).unwrap_err(),
        "Template task title cannot be empty"
    );
    assert_eq!(data.delete_task_template(5).unwrap_err(), "Template not found: 5");
    data.delete_task_template(0).unwrap();
    assert!(data.templates.is_empty());
}

#[test]
fn quick_notes_need_a_title_or_content() {
    assert_eq!(quick_note_fields("  Idea ", ""), Ok(("Idea".to_string(), String::new())));
    assert_eq!(
        quick_note_fields(" ", "\n"),
        Err("A note needs a title or some content".to_string())
    );
}

#[test]
fn an_edited_note_keeps_its_creation_time() {
    let notes = vec![Note {
        id: 2,
        title: "Old".into(),
        content: String::new(),
        pinned: false,
        created_at: 5,
        updated_at: 5,
    }];
    let note = edited_note(2, "New".into(), "Body".into(), true, 9, &notes).unwrap();
    assert_eq!(note.created_at, 5);
    assert_eq!(note.updated_at, 9);
    assert!(note.pinned);
    assert_eq!(edited_note(3, "X".into(), String::new(), false, 9, &notes).unwrap_err(), "Note not found: 3");
}

fn placed(position: usize, key: &str, id: i64) -> (usize, String, cardbe::models::TaskTemplate) {
    (position, key.to_string(), cardbe::models::TaskTemplate { id, name: format!("T{id}"), task: cardbe::models::Task::default() })
}

#[test]
fn stored_templates_come_back_in_list_order() {
    let entries = vec![placed(2, "9", 9), placed(0, "5", 5), placed(1, "b", 2), placed(1, "a", 1)];
    let ordered = cardbe::templates::order_templates(&entries);
    assert_eq!(ordered.iter().map(|e| e.2.id).collect::<Vec<_>>(), vec![5, 1, 2, 9]);
    // A key stored twice keeps its last template, once.
    let twice = vec![placed(0, "a", 1), placed(0, "a", 2)];
    let ordered = cardbe::templates::order_templates(&twice);
    assert_eq!(ordered.len(), 1);
    assert_eq!(ordered[0].2.id, 2);
    assert!(cardbe::templates::order_templates(&vec![]).is_empty());
}
