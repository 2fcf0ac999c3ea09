use cardbe::iroh_share::{
    ensure_board_owned, full_snapshot, host_answer, local_edits_at_risk, SnapshotErrorCode, needs_editor_upload, ticket_payload, viewer_is_current,
    IrohAction, Request,
};
use cardbe::models::{Board, BoardRole, Column, ColumnSort, IrohPermission, StoredData, SyncStatus};

#[test]
fn new_and_legacy_invitation_prefixes_are_accepted() {
    assert_eq!(ticket_payload("cardbe://share/payload"), Some("payload"));
    assert_eq!(ticket_payload(" cardbe+iroh://payload "), Some("payload"));
    assert_eq!(ticket_payload("https://example.test/payload"), None);
}

#[test]
fn received_boards_cannot_create_an_invitation() {
    let viewer = Board {
        id: 7,
        name: "Received".into(),
        task_count: 0,
        shared_role: BoardRole::Viewer,
        sync_status: SyncStatus::Synced,
        sync_revision: 1,
    };
    assert_eq!(ensure_board_owned(None), Err("Board not found".into()));
    assert_eq!(
        ensure_board_owned(Some(&viewer)),
        Err("Only boards you own can be shared".into())
    );
}

#[test]
fn permission_downgrade_only_conflicts_with_unsent_edits() {
    assert!(!local_edits_at_risk(SyncStatus::Synced, false));
    assert!(local_edits_at_risk(SyncStatus::Pending, false));
    assert!(local_edits_at_risk(SyncStatus::Synced, true));
}

#[test]
fn clean_editor_only_sends_its_version_vector() {
    assert!(!needs_editor_upload(BoardRole::Editor, SyncStatus::Synced));
    assert!(needs_editor_upload(BoardRole::Editor, SyncStatus::Pending));
    assert!(!needs_editor_upload(BoardRole::Viewer, SyncStatus::Pending));
}

#[test]
fn viewer_skips_snapshot_only_for_the_same_revision_and_permission() {
    let mut request = Request {
        invite_id: "invite".into(),
        secret: "secret".into(),
        action: IrohAction::Pull,
        loro_state_vector: vec![],
        loro_update: vec![],
        known_revision: Some(4),
        known_permission: Some(IrohPermission::Viewer),
    };
    assert!(viewer_is_current(&request, IrohPermission::Viewer, 4));
    assert!(!viewer_is_current(&request, IrohPermission::Viewer, 5));
    assert!(!viewer_is_current(&request, IrohPermission::Editor, 4));
    request.known_permission = Some(IrohPermission::Editor);
    assert!(!viewer_is_current(&request, IrohPermission::Viewer, 4));
    request.known_permission = Some(IrohPermission::Viewer);
    request.known_revision = None;
    assert!(!viewer_is_current(&request, IrohPermission::Viewer, 4));
}

#[test]
fn an_owned_board_may_be_shared() {
    let owned = Board {
        id: 3,
        name: "Mine".into(),
        task_count: 2,
        shared_role: BoardRole::Owner,
        sync_status: SyncStatus::Synced,
        sync_revision: 0,
    };
    assert_eq!(ensure_board_owned(Some(&owned)), Ok(()));
}

#[test]
fn refused_requests_carry_no_board_content() {
    let answer = host_answer(Err("Waiting".into()), Some(SnapshotErrorCode::ApprovalRequired));
    assert!(!answer.ok);
    assert_eq!(answer.error.as_deref(), Some("Waiting"));
    assert_eq!(answer.error_code, Some(SnapshotErrorCode::ApprovalRequired));
    assert_eq!(answer.name, "");
    assert_eq!(answer.revision, 0);
    assert!(answer.loro_update.is_empty());
    let empty = StoredData::default();
    assert!(answer.data.columns.is_empty() && answer.data.archives.is_empty() && answer.data.templates.is_empty());
    assert!(answer.data.label_recency.is_empty());
    assert_eq!(answer.data.schema_version, empty.schema_version);
    assert_eq!(answer.data.next_column_id, 0);
    assert_eq!(answer.data.next_task_id, 0);
    assert_eq!(answer.data.next_template_id, 0);

    let mut data = StoredData::default();
    data.columns.push(Column {
        id: 1,
        name: "A".into(),
        color: String::new(),
        sort_order: ColumnSort::Custom,
        tasks: Vec::new(),
    });
    let prepared = full_snapshot(None, "Board".into(), IrohPermission::Editor, 7, data, vec![1]);
    let answer = host_answer(Ok(prepared), None);
    assert!(answer.ok);
    assert_eq!(answer.error_code, None);
    assert_eq!(answer.name, "Board");
    assert_eq!(answer.revision, 7);
    assert_eq!(answer.data.columns.len(), 1);
    assert_eq!(answer.loro_update, vec![1]);
}
