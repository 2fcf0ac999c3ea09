use cardbe::invites::{
    copyable_invite, device_key_bytes, invitation_link, invite_summaries, iroh_invite_qr_svg, node_key_bytes,
    ticket_bytes, token_text,
};
use cardbe::models::{Board, BoardRole, IrohDeviceStatus, IrohPermission, SyncStatus};

#[test]
fn an_invitation_link_reads_back_as_its_ticket() {
    let json = br#"{"version":1,"invite_id":"abc"}"#;
    let link = invitation_link(json);
    assert!(link.starts_with("cardbe://share/"));
    assert_eq!(ticket_bytes(&link), Ok(json.to_vec()));
    assert_eq!(ticket_bytes(&format!("  {link}\n")), Ok(json.to_vec()));
}

#[test]
fn invitation_links_are_checked() {
    assert_eq!(ticket_bytes("https://example.test/x"), Err("Not a shared-board invitation".to_string()));
    assert_eq!(ticket_bytes("cardbe://share/***"), Err("Invalid invitation".to_string()));
    assert_eq!(ticket_bytes("cardbe+iroh://aGk"), Ok(b"hi".to_vec()));
}

#[test]
fn tokens_and_node_keys_use_url_safe_base64() {
    assert_eq!(token_text(&[0xfb, 0xff]), "-_8");
    let key = [7u8; 32];
    let text = token_text(&key);
    assert_eq!(node_key_bytes(&text), Ok(key.to_vec()));
    assert_eq!(node_key_bytes("aGk"), Err("Invalid invitation node ID".to_string()));
    assert_eq!(node_key_bytes("not base64!"), Err("Invalid invitation node ID".to_string()));
}

#[test]
fn the_device_key_is_the_digest_of_the_seed() {
    let key = device_key_bytes("abc");
    assert_eq!(key.len(), 32);
    assert_eq!(key[0], 0xba);
    assert_eq!(key[31], 0xad);
    assert_ne!(device_key_bytes("abd"), key);
}

#[test]
fn an_invitation_has_a_qr_code() {
    let svg = iroh_invite_qr_svg("cardbe://share/abc".to_string()).unwrap();
    assert!(svg.contains("<svg"));
}

#[test]
fn summaries_name_their_board_and_devices() {
    let boards = vec![Board {
        id: 1,
        name: "Work".into(),
        task_count: 0,
        shared_role: BoardRole::Owner,
        sync_status: SyncStatus::Synced,
        sync_revision: 0,
    }];
    let invites = vec![
        ("i1".to_string(), 1, IrohPermission::Editor, true, "2024".to_string()),
        ("i2".to_string(), 9, IrohPermission::Viewer, false, "2023".to_string()),
    ];
    let devices = vec![
        ("i1".to_string(), "node-a".to_string(), IrohDeviceStatus::Approved),
        ("i2".to_string(), "node-b".to_string(), IrohDeviceStatus::Pending),
        ("i1".to_string(), "node-c".to_string(), IrohDeviceStatus::Pending),
    ];
    let summaries = invite_summaries(&invites, &devices, &boards);
    assert_eq!(summaries.len(), 2);
    assert_eq!(summaries[0].board_name, "Work");
    assert_eq!(summaries[1].board_name, "Deleted board");
    assert_eq!(
        summaries[0].devices.iter().map(|d| d.node_id.as_str()).collect::<Vec<_>>(),
        vec!["node-a", "node-c"]
    );
    assert!(!summaries[1].enabled);
}

#[test]
fn only_enabled_invitations_can_be_copied() {
    let rows = vec![
        ("a".to_string(), "s1".to_string(), IrohPermission::Viewer, false),
        ("b".to_string(), "s2".to_string(), IrohPermission::Editor, true),
    ];
    assert_eq!(
        copyable_invite(&rows, &"a".to_string()).unwrap_err(),
        "Enable this invitation before copying it"
    );
    let (secret, permission) = copyable_invite(&rows, &"b".to_string()).unwrap();
    assert_eq!(secret, "s2");
    assert_eq!(permission, IrohPermission::Editor);
    assert_eq!(copyable_invite(&rows, &"c".to_string()).unwrap_err(), "Invitation not found");
}
