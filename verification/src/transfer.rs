//! Importing boards from exports and backups: the checks an import passes
//! and the board it makes.
use vstd::prelude::*;
use vstd::string::{StrSliceExecFns, StringExecFns, StringSliceAdditionalSpecFns};
use crate::models::{Board, ExportData, Settings, StoredData, CURRENT_SCHEMA_VERSION};
use crate::stored::{ids_repairable_in, ids_repaired, parts_repairable};
use crate::text::{trim, trim_str};

verus! {

/// The longest board name an import accepts, in bytes.
pub const MAX_BOARD_NAME_BYTES: usize = 200;

/// A new board's data holding what `export` carries, before its identifiers
/// are repaired.
pub open spec fn fresh_board(export: ExportData) -> StoredData {
    StoredData {
        schema_version: CURRENT_SCHEMA_VERSION,
        columns: export.columns,
        archives: export.archives,
        templates: export.templates,
        settings: Settings { notify_enabled: false, global_shortcuts_enabled: true },
        label_recency: export.label_recency,
        next_column_id: 0,
        next_task_id: 0,
        next_template_id: 0,
    }
}

/// `data` with its columns, archives, templates and label order replaced by
/// those of `export` and its counters reset, before its identifiers are
/// repaired.
pub open spec fn overwritten_board(data: StoredData, export: ExportData) -> StoredData {
    StoredData {
        columns: export.columns,
        archives: export.archives,
        templates: export.templates,
        label_recency: export.label_recency,
        next_column_id: 0,
        next_task_id: 0,
        next_template_id: 0,
        ..data
    }
}

/// Whether `export` can become a new board: its identifiers can be
/// repaired.
pub fn can_import(export: &ExportData) -> (r: bool)
    ensures
        r == ids_repairable_in(fresh_board(*export)),
{
    parts_repairable(&export.columns, &export.archives, &export.templates, 0, 0, 0)
}

/// The new board that `export` becomes: its contents with every identifier
/// repaired, the current schema and default settings.
pub fn board_from_export(export: ExportData) -> (r: StoredData)
    requires
        ids_repairable_in(fresh_board(export)),
    ensures
        ids_repaired(fresh_board(export), r),
{
    let mut data = StoredData {
        schema_version: CURRENT_SCHEMA_VERSION,
        columns: export.columns,
        archives: export.archives,
        templates: export.templates,
        settings: Settings { notify_enabled: false, global_shortcuts_enabled: true },
        label_recency: export.label_recency,
        next_column_id: 0,
        next_task_id: 0,
        next_template_id: 0,
    };
    data.repair_all_ids();
    data
}

/// Replaces the open board's contents by those of `export`, with every
/// identifier repaired; the schema version and settings stay.
pub fn replace_with_export(data: &mut StoredData, export: ExportData)
    requires
        ids_repairable_in(overwritten_board(*old(data), export)),
    ensures
        ids_repaired(overwritten_board(*old(data), export), *final(data)),
{
    data.columns = export.columns;
    data.archives = export.archives;
    data.templates = export.templates;
    data.label_recency = export.label_recency;
    data.next_column_id = 0;
    data.next_task_id = 0;
    data.next_template_id = 0;
    data.repair_all_ids();
}

/// A name of at least one and at most `MAX_BOARD_NAME_BYTES` bytes once
/// trimmed.
pub open spec fn acceptable_name(name: Seq<char>) -> bool {
    trim(name).len() > 0 && vstd::utf8::encode_utf8(trim(name)).len() <= MAX_BOARD_NAME_BYTES
}

/// The trimmed name for an imported board; refused with `message` where it
/// is blank or longer than `MAX_BOARD_NAME_BYTES` bytes.
pub fn imported_board_name(name: &str, message: &str) -> (r: Result<String, String>)
    ensures
        acceptable_name(name@) ==> (r matches Ok(n) && n@ == trim(name@)),
        !acceptable_name(name@) ==> (r matches Err(e) && e@ == message@),
{
    let trimmed = trim_str(name);
    if trimmed.unicode_len() == 0 || trimmed.as_bytes().len() > MAX_BOARD_NAME_BYTES {
        return Err(message.to_string());
    }
    Ok(trimmed.to_string())
}

/// A complete backup may be restored: its format version is 1, and it has
/// boards with a valid active one.
pub fn check_backup(schema_version: u32, board_count: usize, active_board_index: usize) -> (r: Result<(), String>)
    ensures
        schema_version != 1 ==> (r matches Err(e) && e@ == "Unsupported all-board backup version"@),
        schema_version == 1 && (board_count == 0 || active_board_index >= board_count) ==> (r matches Err(e) && e@
            == "Backup has no valid active board"@),
        schema_version == 1 && board_count > 0 && active_board_index < board_count ==> r is Ok,
{
    if schema_version != 1 {
        return Err(String::from_str("Unsupported all-board backup version"));
    }
    if board_count == 0 || active_board_index >= board_count {
        return Err(String::from_str("Backup has no valid active board"));
    }
    Ok(())
}

/// The position of the open board in the list, or 0 where it is not there.
pub fn active_board_index(boards: &Vec<Board>, active_board_id: i64) -> (r: usize)
    ensures
        (forall|k: int| 0 <= k < boards@.len() ==> boards@[k].id != active_board_id) ==> r == 0,
        forall|k: int|
            0 <= k < boards@.len() && #[trigger] boards@[k].id == active_board_id && (forall|q: int|
                0 <= q < k ==> boards@[q].id != active_board_id) ==> r == k,
{
    let n = boards.len();
    for k in 0..n
        invariant
            n == boards@.len(),
            forall|q: int| 0 <= q < k ==> boards@[q].id != active_board_id,
    {
        if boards[k].id == active_board_id {
            proof {
                assert forall|j: int|
                    0 <= j < boards@.len() && #[trigger] boards@[j].id == active_board_id && (forall|q: int|
                        0 <= q < j ==> boards@[q].id != active_board_id) implies j == k by {
                    if k < j {
                        assert(boards@[k as int].id == active_board_id);
                    }
                }
            }
            return k;
        }
    }
    0
}

} // verus!
