use cardbe::models::{Column, ColumnSort, Task};
use cardbe::schema::{
    active_after_migration, check_experimental_rows, check_store_table, eq_ignore_ascii_case, experimental_source,
    place_tasks, StoreTable,
};

fn task(id: i64) -> Task {
    Task { id, title: format!("Task {id}"), ..Task::default() }
}

fn column(id: i64) -> Column {
    Column { id, name: format!("Column {id}"), color: "#fff".into(), sort_order: ColumnSort::Custom, tasks: vec![] }
}

fn names(list: &[&str]) -> Vec<String> {
    list.iter().map(|s| s.to_string()).collect()
}

fn described(list: &[(&str, &str)]) -> Vec<(String, String)> {
    list.iter().map(|(n, t)| (n.to_string(), t.to_string())).collect()
}

#[test]
fn store_tables_must_have_their_columns() {
    assert_eq!(check_store_table(StoreTable::Boards, &names(&["id", "name", "shared_role"])), Ok(()));
    assert_eq!(
        check_store_table(StoreTable::Tasks, &names(&["board_id", "id", "position", "payload"])),
        Err("Cardbe database schema conflict in cardbe_tasks; expected columns: board_id, id, column_id, position, payload"
            .to_string())
    );
    assert_eq!(
        check_store_table(StoreTable::Boards, &names(&[])),
        Err("Cardbe database schema conflict in cardbe_boards; expected columns: id, name".to_string())
    );
}

#[test]
fn ascii_case_is_ignored_only_for_letters() {
    assert!(eq_ignore_ascii_case("integer", "INTEGER"));
    assert!(eq_ignore_ascii_case("InTeGeR", "INTEGER"));
    assert!(!eq_ignore_ascii_case("INT", "INTEGER"));
    assert!(!eq_ignore_ascii_case("é", "É"));
}

#[test]
fn experimental_layout_is_migrated_only_when_complete() {
    let boards = described(&[("id", "integer"), ("name", "TEXT")]);
    let snapshots = described(&[("board_id", "INTEGER"), ("payload", "TEXT")]);
    assert_eq!(experimental_source(false, false, &vec![], &vec![]), Ok(false));
    assert_eq!(experimental_source(true, true, &boards, &snapshots), Ok(true));
    // A `boards` table of another application is left alone.
    assert_eq!(experimental_source(true, false, &described(&[("id", "TEXT"), ("name", "TEXT")]), &vec![]), Ok(false));
    assert_eq!(
        experimental_source(true, false, &boards, &vec![]),
        Err("Incomplete experimental multi-board schema: both boards and board_snapshots are required. No data was changed."
            .to_string())
    );
    assert!(experimental_source(false, true, &vec![], &snapshots).is_err());
    assert_eq!(experimental_source(true, true, &boards, &described(&[("board_id", "INTEGER")])), Ok(false));
}

#[test]
fn experimental_rows_must_cover_every_board() {
    assert_eq!(check_experimental_rows(2, 2), Ok(()));
    assert_eq!(
        check_experimental_rows(1, 2),
        Err("Experimental board snapshots are incomplete; migration was rolled back to avoid data loss.".to_string())
    );
    assert!(check_experimental_rows(0, -1).is_err());
}

#[test]
fn migration_opens_the_remembered_board_or_the_first() {
    assert_eq!(active_after_migration(Some(7), &vec![3, 7], Some(3)), Ok(7));
    assert_eq!(active_after_migration(Some(9), &vec![3, 7], Some(3)), Ok(3));
    assert_eq!(active_after_migration(None, &vec![3], Some(3)), Ok(3));
    assert_eq!(
        active_after_migration(None, &vec![], None),
        Err("Experimental board migration contained no boards".to_string())
    );
}

#[test]
fn stored_rows_go_back_to_their_columns_in_order() {
    let rows = vec![(2, task(20)), (1, task(10)), (2, task(21))];
    let columns = place_tasks(Some(4), vec![column(1), column(2)], &rows).unwrap();
    let ids = |c: &Column| c.tasks.iter().map(|t| t.id).collect::<Vec<_>>();
    assert_eq!(ids(&columns[0]), vec![10]);
    assert_eq!(ids(&columns[1]), vec![20, 21]);
    assert_eq!(columns[1].name, "Column 2");
}

#[test]
fn a_row_without_its_column_refuses_the_board() {
    let rows = vec![(1, task(10)), (5, task(11)), (6, task(12))];
    assert_eq!(
        place_tasks(Some(4), vec![column(1)], &rows).err(),
        Some("Board 4 task 11 refers to missing column 5".to_string())
    );
    assert_eq!(place_tasks(None, vec![], &rows).err(), Some("Task 10 refers to missing column 1".to_string()));
}
