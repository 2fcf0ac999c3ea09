use cardbe::models::{Board, BoardRole, Column, ColumnSort, ExportData, StoredData, SyncStatus, Task};
use cardbe::transfer::{
    active_board_index, board_from_export, can_import, check_backup, imported_board_name, replace_with_export,
};

fn export() -> ExportData {
    ExportData {
        columns: vec![Column {
            id: -5,
            name: "Todo".into(),
            color: String::new(),
            sort_order: ColumnSort::Custom,
            tasks: vec![Task { id: 3, ..Task::default() }, Task { id: 3, ..Task::default() }],
        }],
        archives: vec![],
        templates: vec![],
        labels: vec![],
        label_recency: vec!["x".into()],
    }
}

#[test]
fn an_export_becomes_a_board_with_repaired_identifiers() {
    let e = export();
    assert!(can_import(&e));
    let data = board_from_export(e);
    assert_eq!(data.columns[0].id, 0);
    assert_eq!(data.columns[0].tasks[0].id, 3);
    assert_eq!(data.columns[0].tasks[1].id, 4);
    assert_eq!(data.next_task_id, 5);
    assert_eq!(data.label_recency, vec!["x".to_string()]);
    assert_eq!(data.schema_version, StoredData::default().schema_version);
}

#[test]
fn importing_over_the_open_board_keeps_its_settings() {
    let mut data = StoredData::default();
    data.settings.notify_enabled = true;
    data.next_task_id = 100;
    replace_with_export(&mut data, export());
    assert!(data.settings.notify_enabled);
    assert_eq!(data.next_task_id, 5);
}

#[test]
fn board_names_of_imports_are_checked() {
    assert_eq!(imported_board_name("  Work  ", "Invalid board name"), Ok("Work".to_string()));
    assert_eq!(imported_board_name("   ", "Invalid board name"), Err("Invalid board name".to_string()));
    let long = "é".repeat(101);
    assert_eq!(imported_board_name(&long, "Invalid board name"), Err("Invalid board name".to_string()));
    let fits = "é".repeat(100);
    assert_eq!(imported_board_name(&fits, "Invalid board name"), Ok(fits.clone()));
}

#[test]
fn backups_need_a_known_version_and_an_active_board() {
    assert_eq!(check_backup(2, 1, 0), Err("Unsupported all-board backup version".to_string()));
    assert_eq!(check_backup(1, 0, 0), Err("Backup has no valid active board".to_string()));
    assert_eq!(check_backup(1, 2, 2), Err("Backup has no valid active board".to_string()));
    assert_eq!(check_backup(1, 2, 1), Ok(()));
}

#[test]
fn the_active_board_is_found_by_position() {
    let boards: Vec<Board> = [4, 8]
        .iter()
        .map(|&id| Board {
            id,
            name: String::new(),
            task_count: 0,
            shared_role: BoardRole::Owner,
            sync_status: SyncStatus::Synced,
            sync_revision: 0,
        })
        .collect();
    assert_eq!(active_board_index(&boards, 8), 1);
    assert_eq!(active_board_index(&boards, 5), 0);
}
