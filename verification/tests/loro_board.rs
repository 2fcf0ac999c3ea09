use cardbe::loro_board::{
    check_import_complete,
    departed_column_ids, departed_task_ids, departed_template_ids, diff, doc_from_update, merge, node_id_named,
    node_kind_named, share_snapshot, state_vector, LoroNodeKind,
};
use cardbe::models::{Archive, Column, ColumnSort, StoredData, Task, TaskTemplate};

fn column(id: i64, task_ids: &[i64]) -> Column {
    Column {
        id,
        name: "Todo".into(),
        color: String::new(),
        sort_order: ColumnSort::Custom,
        tasks: task_ids.iter().map(|&id| Task { id, ..Task::default() }).collect(),
    }
}

#[test]
fn node_kinds_are_named_and_read_back() {
    for kind in [LoroNodeKind::Archives, LoroNodeKind::Column, LoroNodeKind::Task] {
        assert_eq!(node_kind_named(Some(kind.as_str())), Ok(kind));
    }
    assert_eq!(node_kind_named(None), Err("Loro tree node has no kind".to_string()));
    assert_eq!(node_kind_named(Some("board")), Err("Invalid Loro tree node kind".to_string()));
}

#[test]
fn node_identifiers_are_decimal_integers() {
    assert_eq!(node_id_named(Some("42")), Ok(42));
    assert_eq!(node_id_named(Some("-7")), Ok(-7));
    assert_eq!(node_id_named(Some("+7")), Ok(7));
    assert_eq!(node_id_named(Some("-9223372036854775808")), Ok(i64::MIN));
    assert_eq!(node_id_named(Some("9223372036854775808")), Err("Invalid Loro tree node ID".to_string()));
    assert_eq!(node_id_named(Some("-+7")), Err("Invalid Loro tree node ID".to_string()));
    assert_eq!(node_id_named(Some("")), Err("Invalid Loro tree node ID".to_string()));
    assert_eq!(node_id_named(None), Err("Loro tree node has no ID".to_string()));
}

#[test]
fn a_save_removes_what_the_new_state_no_longer_holds() {
    let mut before = StoredData::default();
    before.columns = vec![column(1, &[10, 11]), column(2, &[20])];
    before.archives = vec![Archive { time: 1, task: Task { id: 30, ..Task::default() } }];
    before.templates = vec![TaskTemplate { id: 5, name: "T".into(), task: Task::default() }];
    let mut after = StoredData::default();
    after.columns = vec![column(2, &[20, 11])];
    after.archives = vec![Archive { time: 2, task: Task { id: 10, ..Task::default() } }];
    assert_eq!(departed_column_ids(&before, &after), vec![1]);
    assert_eq!(departed_task_ids(&before, &after), vec![30]);
    assert_eq!(departed_template_ids(&before, &after), vec![5]);
}

#[test]
fn an_empty_document_has_a_version_and_merges() {
    assert!(doc_from_update(None).is_ok());
    assert!(doc_from_update(Some(&[])).is_ok());
    let version = state_vector(None).unwrap();
    let snapshot = merge(None, &[]).unwrap();
    assert!(!snapshot.is_empty());
    assert!(state_vector(Some(&snapshot)).is_ok());
    assert!(diff(Some(&snapshot), &version).is_ok());
    assert!(share_snapshot(&snapshot).is_ok());
}

#[test]
fn unreadable_documents_are_refused() {
    assert!(doc_from_update(Some(&[1, 2, 3])).is_err());
    assert!(state_vector(Some(&[1, 2, 3])).is_err());
    assert!(merge(None, &[9, 9, 9]).is_err());
    assert!(diff(None, &[0xff, 0xff, 0xff, 0xff]).is_err());
}

#[test]
fn an_import_waiting_for_changes_is_refused() {
    assert_eq!(check_import_complete(true), Err("Loro update has missing dependencies".to_string()));
    assert_eq!(check_import_complete(false), Ok(()));
}

fn document_with_one_change() -> Vec<u8> {
    let doc = loro::LoroDoc::new();
    doc.get_map("cardbe.columns").insert("1", "Todo").unwrap();
    doc.commit();
    doc.export(loro::ExportMode::Snapshot).unwrap()
}

#[test]
fn state_vectors_depend_on_the_imported_bytes_alone() {
    assert_eq!(state_vector(None), state_vector(Some(&[])));
    let snapshot = document_with_one_change();
    let first = state_vector(Some(&snapshot)).unwrap();
    let second = state_vector(Some(&snapshot)).unwrap();
    assert_eq!(first, second);
    assert_ne!(first, state_vector(None).unwrap());
}

#[test]
fn pushing_the_same_changes_twice_leaves_the_version() {
    let base = merge(None, &[]).unwrap();
    let incoming = document_with_one_change();
    let once = merge(Some(&base), &incoming).unwrap();
    let twice = merge(Some(&once), &incoming).unwrap();
    assert_ne!(state_vector(Some(&base)).unwrap(), state_vector(Some(&once)).unwrap());
    assert_eq!(state_vector(Some(&once)).unwrap(), state_vector(Some(&twice)).unwrap());
}

#[test]
fn changes_missing_their_history_are_refused() {
    let doc = loro::LoroDoc::new();
    let map = doc.get_map("m");
    map.insert("a", 1).unwrap();
    doc.commit();
    let first = doc.oplog_vv();
    map.insert("b", 2).unwrap();
    doc.commit();
    let later = doc.export(loro::ExportMode::updates(&first)).unwrap();
    assert_eq!(merge(None, &later), Err("Loro update has missing dependencies".to_string()));
}

#[test]
fn a_peer_gets_what_it_lacks() {
    let owner = document_with_one_change();
    let peer_version = state_vector(None).unwrap();
    let missing = diff(Some(&owner), &peer_version).unwrap();
    let caught_up = merge(None, &missing).unwrap();
    assert_eq!(state_vector(Some(&caught_up)).unwrap(), state_vector(Some(&owner)).unwrap());
}
