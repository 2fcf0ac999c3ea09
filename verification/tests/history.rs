use cardbe::history::{check_board_current, check_undo, finish_undo, record_undo, stale_change_message, UNDO_LIMIT};
use cardbe::models::StoredData;

fn state(version: u32) -> StoredData {
    let mut data = StoredData::default();
    data.schema_version = version;
    data
}

#[test]
fn the_undo_history_keeps_the_latest_fifty_states() {
    let mut history = Vec::new();
    for k in 0..60 {
        record_undo(&mut history, state(k));
        assert!(history.len() <= UNDO_LIMIT);
    }
    assert_eq!(history.len(), 50);
    assert_eq!(history[0].schema_version, 10);
    assert_eq!(history[49].schema_version, 59);
}

#[test]
fn undo_needs_the_open_board_and_an_earlier_state() {
    let mut history = vec![state(1)];
    assert_eq!(check_undo(1, 2, &history), Err("Stale board request".to_string()));
    assert_eq!(check_undo(1, 1, &Vec::new()), Err("There is nothing to undo".to_string()));
    assert_eq!(check_undo(1, 1, &history), Ok(()));
    assert!(!finish_undo(&mut history));
    assert!(history.is_empty());
}

#[test]
fn changes_for_another_board_are_refused() {
    assert_eq!(check_board_current(3, 3), Ok(()));
    assert_eq!(check_board_current(3, 4), Err("Stale board request".to_string()));
    assert_eq!(stale_change_message(4, -3), "Stale board request: expected board 4, active board is -3");
}
