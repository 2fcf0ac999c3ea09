use cardbe::boards::{board_name, next_board_after_delete};
use cardbe::models::{Board, BoardRole, SyncStatus};

fn board(id: i64) -> Board {
    Board {
        id,
        name: format!("Board {id}"),
        task_count: 0,
        shared_role: BoardRole::Owner,
        sync_status: SyncStatus::Synced,
        sync_revision: 0,
    }
}

#[test]
fn deleting_active_board_selects_a_neighbor_and_rejects_last_board() {
    let boards = vec![board(1), board(2), board(3)];
    assert_eq!(next_board_after_delete(&boards, 2).unwrap(), 3);
    assert_eq!(next_board_after_delete(&boards, 3).unwrap(), 2);
    assert!(next_board_after_delete(&[board(1)], 1).is_err());
}

#[test]
fn deleting_an_unknown_board_is_refused() {
    let boards = vec![board(1), board(2)];
    assert_eq!(
        next_board_after_delete(&boards, 9),
        Err("Board not found".to_string())
    );
}

#[test]
fn board_names_are_trimmed_and_may_not_be_blank() {
    assert_eq!(board_name("  Work ".to_string()), Ok("Work".to_string()));
    assert_eq!(
        board_name("   ".to_string()),
        Err("Board name cannot be empty".to_string())
    );
}
