//! The board data model: columns of tasks, archives, templates and settings.
use vstd::prelude::*;
use crate::text::str_eq;

verus! {

/// The schema version that this library writes.
pub const CURRENT_SCHEMA_VERSION: u32 = 8;

/// How a board is shared with this installation.
#[derive(Clone, Copy, Debug, PartialEq, Eq, Structural)]
pub enum BoardRole {
    Owner,
    Editor,
    Viewer,
}

/// Whether a received board has local edits that the owner has not seen.
#[derive(Clone, Copy, Debug, PartialEq, Eq, Structural)]
pub enum SyncStatus {
    Synced,
    Pending,
    Conflict,
}

/// What an invitation lets a receiving device do.
#[derive(Clone, Copy, Debug, PartialEq, Eq, Structural)]
pub enum IrohPermission {
    Viewer,
    Editor,
}

/// The role a received board has under an invitation's permission.
impl From<IrohPermission> for BoardRole {
    fn from(permission: IrohPermission) -> (r: BoardRole) {
        match permission {
            IrohPermission::Viewer => BoardRole::Viewer,
            IrohPermission::Editor => BoardRole::Editor,
        }
    }
}

impl vstd::std_specs::convert::FromSpecImpl<IrohPermission> for BoardRole {
    open spec fn obeys_from_spec() -> bool {
        true
    }

    open spec fn from_spec(permission: IrohPermission) -> BoardRole {
        match permission {
            IrohPermission::Viewer => BoardRole::Viewer,
            IrohPermission::Editor => BoardRole::Editor,
        }
    }
}

/// The owner's decision on a device that used an invitation.
#[derive(Clone, Copy, Debug, PartialEq, Eq, Structural)]
pub enum IrohDeviceStatus {
    Pending,
    Approved,
    Revoked,
}

/// A board as listed in the board switcher.
#[derive(Clone, Debug)]
pub struct Board {
    pub id: i64,
    pub name: String,
    pub task_count: i64,
    pub shared_role: BoardRole,
    pub sync_status: SyncStatus,
    pub sync_revision: i64,
}

/// A free-form note, independent of boards.
#[derive(Clone, Debug)]
pub struct Note {
    pub id: i64,
    pub title: String,
    pub content: String,
    pub pinned: bool,
    pub created_at: i64,
    pub updated_at: i64,
}

/// One entry of a task's checklist.
#[derive(Clone, Debug)]
pub struct TaskItem {
    pub id: String,
    pub text: String,
    pub completed: bool,
}

/// The contents of a checklist entry.
pub struct TaskItemView {
    pub id: Seq<char>,
    pub text: Seq<char>,
    pub completed: bool,
}

impl View for TaskItem {
    type V = TaskItemView;

    open spec fn view(&self) -> TaskItemView {
        TaskItemView { id: self.id@, text: self.text@, completed: self.completed }
    }
}

/// The unit in which a recurring task repeats.
#[derive(Clone, Copy, Debug, PartialEq, Eq, Structural)]
pub enum RecurrenceFrequency {
    Daily,
    Weekly,
    Monthly,
}

/// How often a task repeats.
#[derive(Clone, Copy, Debug, PartialEq, Eq, Structural)]
pub struct Recurrence {
    pub frequency: RecurrenceFrequency,
    pub interval: u32,
}

/// A card on the board. Times are milliseconds since the Unix epoch; a
/// start time of 0 means that the task has none.
#[derive(Clone, Debug)]
pub struct Task {
    pub id: i64,
    pub title: String,
    pub description: String,
    pub color: String,
    pub start_time: u128,
    pub due_time: Option<u128>,
    pub labels: Vec<String>,
    pub items: Vec<TaskItem>,
    pub recurrence: Option<Recurrence>,
}

/// The contents of a task.
pub struct TaskView {
    pub id: i64,
    pub title: Seq<char>,
    pub description: Seq<char>,
    pub color: Seq<char>,
    pub start_time: u128,
    pub due_time: Option<u128>,
    pub labels: Seq<Seq<char>>,
    pub items: Seq<TaskItemView>,
    pub recurrence: Option<Recurrence>,
}

impl View for Task {
    type V = TaskView;

    open spec fn view(&self) -> TaskView {
        TaskView {
            id: self.id,
            title: self.title@,
            description: self.description@,
            color: self.color@,
            start_time: self.start_time,
            due_time: self.due_time,
            labels: self.labels@.map_values(|s: String| s@),
            items: self.items@.map_values(|i: TaskItem| i@),
            recurrence: self.recurrence,
        }
    }
}

/// A named task that new tasks can be created from.
#[derive(Clone, Debug)]
pub struct TaskTemplate {
    pub id: i64,
    pub name: String,
    pub task: Task,
}

/// The order in which a column shows its tasks.
#[derive(Clone, Copy, Debug, PartialEq, Eq, Structural)]
pub enum ColumnSort {
    Custom,
    DueDateAsc,
    DueDateDesc,
}

/// A column of the board.
#[derive(Clone, Debug)]
pub struct Column {
    pub id: i64,
    pub name: String,
    pub color: String,
    pub sort_order: ColumnSort,
    pub tasks: Vec<Task>,
}

/// A task that was taken off the board, with the time it was archived.
#[derive(Clone, Debug)]
pub struct Archive {
    pub time: u128,
    pub task: Task,
}

/// Installation-wide settings.
#[derive(Clone, Copy, Debug, PartialEq, Eq, Structural)]
pub struct Settings {
    pub notify_enabled: bool,
    pub global_shortcuts_enabled: bool,
}

/// Everything that is stored for one board.
#[derive(Clone, Debug)]
pub struct StoredData {
    pub schema_version: u32,
    pub columns: Vec<Column>,
    pub archives: Vec<Archive>,
    pub templates: Vec<TaskTemplate>,
    pub settings: Settings,
    /// Labels in most-recently-used order. Labels themselves are still derived
    /// from active tasks, so removing a label from every task removes it here.
    pub label_recency: Vec<String>,
    pub next_column_id: i64,
    pub next_task_id: i64,
    pub next_template_id: i64,
}

/// The data of one board in an export file.
#[derive(Clone, Debug)]
pub struct ExportData {
    pub columns: Vec<Column>,
    pub archives: Vec<Archive>,
    pub templates: Vec<TaskTemplate>,
    pub labels: Vec<String>,
    pub label_recency: Vec<String>,
}

/// Complete, portable backup. Unlike `ExportData`, this contains every board
/// plus global data and is deliberately versioned for future migrations.
#[derive(Clone, Debug)]
pub struct AllBoardsExport {
    pub schema_version: u32,
    pub boards: Vec<AllBoardsExportBoard>,
    pub active_board_index: usize,
    pub settings: Settings,
    pub notes: Vec<Note>,
}

/// One board of a complete backup.
#[derive(Clone, Debug)]
pub struct AllBoardsExportBoard {
    pub name: String,
    pub data: ExportData,
}

/// The identifier that a task, column or template has before one is assigned.
pub fn default_id() -> (r: i64)
    ensures
        r == -1,
{
    -1
}

/// A recurrence repeats every unit unless it says otherwise.
pub fn default_recurrence_interval() -> (r: u32)
    ensures
        r == 1,
{
    1
}

/// Global shortcuts are on unless a stored setting turns them off.
pub fn default_true() -> (r: bool)
    ensures
        r,
{
    true
}

impl Default for Task {
    fn default() -> (r: Self)
        ensures
            r.id == -1,
            r.title@ == Seq::<char>::empty(),
            r.description@ == Seq::<char>::empty(),
            r.color@ == Seq::<char>::empty(),
            r.start_time == 0,
            r.due_time is None,
            r.labels@.len() == 0,
            r.items@.len() == 0,
            r.recurrence is None,
    {
        Task {
            id: -1,
            title: String::new(),
            description: String::new(),
            color: String::new(),
            start_time: 0,
            due_time: None,
            labels: Vec::new(),
            items: Vec::new(),
            recurrence: None,
        }
    }
}

impl Default for ColumnSort {
    fn default() -> (r: Self)
        ensures
            r == ColumnSort::Custom,
    {
        ColumnSort::Custom
    }
}

impl Default for Settings {
    fn default() -> (r: Self)
        ensures
            r == (Settings { notify_enabled: false, global_shortcuts_enabled: true }),
    {
        Settings { notify_enabled: false, global_shortcuts_enabled: true }
    }
}

/// The data of a board with nothing in it, as a new board starts.
pub open spec fn is_empty_board(d: StoredData) -> bool {
    &&& d.schema_version == CURRENT_SCHEMA_VERSION
    &&& d.columns@.len() == 0
    &&& d.archives@.len() == 0
    &&& d.templates@.len() == 0
    &&& d.settings == (Settings { notify_enabled: false, global_shortcuts_enabled: true })
    &&& d.label_recency@.len() == 0
    &&& d.next_column_id == 0
    &&& d.next_task_id == 0
    &&& d.next_template_id == 0
}

impl Default for StoredData {
    fn default() -> (r: Self)
        ensures
            is_empty_board(r),
            r.schema_version == CURRENT_SCHEMA_VERSION,
            r.columns@.len() == 0,
            r.archives@.len() == 0,
            r.templates@.len() == 0,
            r.settings == (Settings { notify_enabled: false, global_shortcuts_enabled: true }),
            r.label_recency@.len() == 0,
            r.next_column_id == 0,
            r.next_task_id == 0,
            r.next_template_id == 0,
    {
        StoredData {
            schema_version: CURRENT_SCHEMA_VERSION,
            columns: Vec::new(),
            archives: Vec::new(),
            templates: Vec::new(),
            settings: Settings::default(),
            label_recency: Vec::new(),
            next_column_id: 0,
            next_task_id: 0,
            next_template_id: 0,
        }
    }
}

/// The stored name of a sort order.
pub open spec fn sort_name(sort: ColumnSort) -> Seq<char> {
    match sort {
        ColumnSort::Custom => "custom"@,
        ColumnSort::DueDateAsc => "due_date_asc"@,
        ColumnSort::DueDateDesc => "due_date_desc"@,
    }
}

/// The sort order that a stored name stands for; unknown names mean the
/// custom order.
pub open spec fn sort_from_name(name: Seq<char>) -> ColumnSort {
    if name == "due_date_asc"@ {
        ColumnSort::DueDateAsc
    } else if name == "due_date_desc"@ {
        ColumnSort::DueDateDesc
    } else {
        ColumnSort::Custom
    }
}

impl ColumnSort {
    pub fn as_str(&self) -> (r: &'static str)
        ensures
            r@ == sort_name(*self),
    {
        match self {
            ColumnSort::Custom => "custom",
            ColumnSort::DueDateAsc => "due_date_asc",
            ColumnSort::DueDateDesc => "due_date_desc",
        }
    }

    pub fn from_str(value: &str) -> (r: Self)
        ensures
            r == sort_from_name(value@),
    {
        if str_eq(value, "due_date_asc") {
            ColumnSort::DueDateAsc
        } else if str_eq(value, "due_date_desc") {
            ColumnSort::DueDateDesc
        } else {
            ColumnSort::Custom
        }
    }
}

/// Reading back the stored name of a sort order gives that order.
pub proof fn lemma_sort_name_round_trip(sort: ColumnSort)
    ensures
        sort_from_name(sort_name(sort)) == sort,
{
    reveal_strlit("custom");
    reveal_strlit("due_date_asc");
    reveal_strlit("due_date_desc");
    match sort {
        ColumnSort::Custom => {
            assert("custom"@.len() != "due_date_asc"@.len());
            assert("custom"@.len() != "due_date_desc"@.len());
        },
        ColumnSort::DueDateAsc => {},
        ColumnSort::DueDateDesc => {
            assert("due_date_desc"@.len() != "due_date_asc"@.len());
        },
    }
}

} // verus!
