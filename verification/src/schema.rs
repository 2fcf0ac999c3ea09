//! The board store's tables: which columns they must have, when an earlier
//! experimental multi-board layout is migrated, and how stored task rows
//! are put back into their columns.
use vstd::prelude::*;
use vstd::string::StringExecFns;
use crate::models::{Column, Task, TaskView};
use crate::templates::copy_task;
use crate::text::{int_decimal, push_i64_decimal, str_eq};

verus! {

/// A table of the board store whose layout is checked before use.
#[derive(Clone, Copy, Debug, PartialEq, Eq, Structural)]
pub enum StoreTable {
    Boards,
    Columns,
    Tasks,
}

/// The table's name in the database.
pub open spec fn table_name(table: StoreTable) -> Seq<char> {
    match table {
        StoreTable::Boards => "cardbe_boards"@,
        StoreTable::Columns => "cardbe_columns"@,
        StoreTable::Tasks => "cardbe_tasks"@,
    }
}

/// The columns the table must have.
pub open spec fn required_view(table: StoreTable) -> Seq<Seq<char>> {
    match table {
        StoreTable::Boards => seq!["id"@, "name"@],
        StoreTable::Columns => seq!["board_id"@, "id"@, "name"@, "color"@, "sort_order"@, "position"@],
        StoreTable::Tasks => seq!["board_id"@, "id"@, "column_id"@, "position"@, "payload"@],
    }
}

/// The parts, in order, with `sep` between each two.
pub open spec fn joined(parts: Seq<Seq<char>>, sep: Seq<char>) -> Seq<char>
    decreases parts.len(),
{
    if parts.len() == 0 {
        Seq::empty()
    } else if parts.len() == 1 {
        parts[0]
    } else {
        joined(parts.drop_last(), sep) + sep + parts.last()
    }
}

/// Whether `name` is among `present`.
pub open spec fn has_name(present: Seq<String>, name: Seq<char>) -> bool {
    exists|k: int| 0 <= k < present.len() && #[trigger] present[k]@ == name
}

/// The table's name in the database: see [`table_name`].
pub fn table_name_of(table: StoreTable) -> (r: &'static str)
    ensures
        r@ == table_name(table),
{
    match table {
        StoreTable::Boards => "cardbe_boards",
        StoreTable::Columns => "cardbe_columns",
        StoreTable::Tasks => "cardbe_tasks",
    }
}

/// The columns the table must have: see [`required_view`].
pub fn required_columns(table: StoreTable) -> (r: Vec<&'static str>)
    ensures
        r@.map_values(|s: &'static str| s@) == required_view(table),
{
    let r = match table {
        StoreTable::Boards => vec!["id", "name"],
        StoreTable::Columns => vec!["board_id", "id", "name", "color", "sort_order", "position"],
        StoreTable::Tasks => vec!["board_id", "id", "column_id", "position", "payload"],
    };
    assert(r@.map_values(|s: &'static str| s@) =~= required_view(table));
    r
}

fn name_listed(present: &Vec<String>, name: &str) -> (r: bool)
    ensures
        r == has_name(present@, name@),
{
    let n = present.len();
    for k in 0..n
        invariant
            n == present@.len(),
            forall|q: int| 0 <= q < k ==> #[trigger] present@[q]@ != name@,
    {
        if str_eq(present[k].as_str(), name) {
            return true;
        }
    }
    false
}

fn join_names(parts: &Vec<&'static str>) -> (r: String)
    ensures
        r@ == joined(parts@.map_values(|s: &'static str| s@), ", "@),
{
    let ghost view = parts@.map_values(|s: &'static str| s@);
    let mut r = String::new();
    let n = parts.len();
    if n == 0 {
        return r;
    }
    r.append(parts[0]);
    proof {
        assert(view.take(1).drop_last() =~= Seq::<Seq<char>>::empty());
        assert(r@ =~= joined(view.take(1), ", "@));
    }
    for i in 1..n
        invariant
            n == parts@.len(),
            view == parts@.map_values(|s: &'static str| s@),
            r@ == joined(view.take(i as int), ", "@),
    {
        r.append(", ");
        r.append(parts[i]);
        proof {
            assert(view.take(i + 1).drop_last() =~= view.take(i as int));
            assert(view.take(i + 1).last() == parts@[i as int]@);
        }
    }
    proof {
        assert(view.take(n as int) =~= view);
    }
    r
}

/// Refuses a table of the board store that lacks one of the columns it must
/// have: such a table belongs to something else, and nothing is written.
pub fn check_store_table(table: StoreTable, present: &Vec<String>) -> (r: Result<(), String>)
    ensures
        r is Ok <==> forall|j: int| 0 <= j < required_view(table).len() ==> has_name(present@, #[trigger] required_view(table)[j]),
        r matches Err(e) ==> e@ == "Cardbe database schema conflict in "@ + table_name(table) + "; expected columns: "@
            + joined(required_view(table), ", "@),
{
    let required = required_columns(table);
    let ghost view = required@.map_values(|s: &'static str| s@);
    let n = required.len();
    let mut all = true;
    let mut k: usize = 0;
    while k < n
        invariant
            n == required@.len(),
            view == required_view(table),
            view == required@.map_values(|s: &'static str| s@),
            k <= n,
            all == forall|j: int| 0 <= j < k ==> has_name(present@, #[trigger] view[j]),
        decreases n - k,
    {
        let listed = name_listed(present, required[k]);
        proof {
            assert(view[k as int] == required@[k as int]@);
        }
        all = all && listed;
        k = k + 1;
    }
    if all {
        Ok(())
    } else {
        let mut e = String::from_str("Cardbe database schema conflict in ");
        e.append(table_name_of(table));
        e.append("; expected columns: ");
        let names = join_names(&required);
        e.append(names.as_str());
        Err(e)
    }
}

/// The character with ASCII capitals taken to small letters, as a number.
pub open spec fn ascii_folded(c: char) -> u32 {
    if 'A' <= c <= 'Z' {
        (c as u32 + 32) as u32
    } else {
        c as u32
    }
}

/// The two texts are equal once ASCII letters are compared without case.
pub open spec fn same_ignoring_ascii_case(a: Seq<char>, b: Seq<char>) -> bool {
    a.len() == b.len() && forall|i: int| 0 <= i < a.len() ==> #[trigger] ascii_folded(a[i]) == ascii_folded(b[i])
}

fn fold_char(c: char) -> (r: u32)
    ensures
        r == ascii_folded(c),
{
    if 'A' <= c && c <= 'Z' {
        c as u32 + 32
    } else {
        c as u32
    }
}

/// Whether the two texts are equal once ASCII letters are compared without
/// case: see [`same_ignoring_ascii_case`].
pub fn eq_ignore_ascii_case(a: &str, b: &str) -> (r: bool)
    ensures
        r == same_ignoring_ascii_case(a@, b@),
{
    let va = crate::text::chars_of(a);
    let vb = crate::text::chars_of(b);
    if va.len() != vb.len() {
        return false;
    }
    let n = va.len();
    for i in 0..n
        invariant
            n == va@.len(),
            n == vb@.len(),
            va@ == a@,
            vb@ == b@,
            forall|q: int| 0 <= q < i ==> #[trigger] ascii_folded(a@[q]) == ascii_folded(b@[q]),
    {
        if fold_char(va[i]) != fold_char(vb[i]) {
            return false;
        }
    }
    true
}

/// A column description (name, declared type) of an earlier board table.
pub type TableColumn = (String, String);

/// An integer column named `id` is among the columns.
pub open spec fn has_integer_id(columns: Seq<TableColumn>) -> bool {
    exists|k: int|
        0 <= k < columns.len() && #[trigger] columns[k].0@ == "id"@ && same_ignoring_ascii_case(
            columns[k].1@,
            "INTEGER"@,
        )
}

/// A column with this name is among the columns.
pub open spec fn has_column_named(columns: Seq<TableColumn>, name: Seq<char>) -> bool {
    exists|k: int| 0 <= k < columns.len() && #[trigger] columns[k].0@ == name
}

/// Whether the earlier experimental layout's boards are migrated, given
/// which of its tables `boards` and `board_snapshots` exist and their
/// columns: a `boards` table that is not that layout's belongs to another
/// application and is left alone; that layout without its snapshots is
/// refused; otherwise its boards are migrated when both tables have the
/// columns it used.
pub open spec fn experimental_outcome(
    has_boards: bool,
    has_snapshots: bool,
    board_columns: Seq<TableColumn>,
    snapshot_columns: Seq<TableColumn>,
) -> Result<bool, Seq<char>> {
    let looks = has_integer_id(board_columns) && has_column_named(board_columns, "name"@);
    if !has_boards && !has_snapshots {
        Ok(false)
    } else if has_boards && !has_snapshots && !looks {
        Ok(false)
    } else if !(has_boards && has_snapshots) {
        Err(
            "Incomplete experimental multi-board schema: both boards and board_snapshots are required. No data was changed."@,
        )
    } else {
        Ok(
            looks && has_column_named(snapshot_columns, "board_id"@) && has_column_named(
                snapshot_columns,
                "payload"@,
            ),
        )
    }
}

fn integer_id_listed(columns: &Vec<TableColumn>) -> (r: bool)
    ensures
        r == has_integer_id(columns@),
{
    let n = columns.len();
    for k in 0..n
        invariant
            n == columns@.len(),
            forall|q: int|
                0 <= q < k ==> !(#[trigger] columns@[q].0@ == "id"@ && same_ignoring_ascii_case(
                    columns@[q].1@,
                    "INTEGER"@,
                )),
    {
        if str_eq(columns[k].0.as_str(), "id") && eq_ignore_ascii_case(columns[k].1.as_str(), "INTEGER") {
            return true;
        }
    }
    false
}

fn column_named(columns: &Vec<TableColumn>, name: &str) -> (r: bool)
    ensures
        r == has_column_named(columns@, name@),
{
    let n = columns.len();
    for k in 0..n
        invariant
            n == columns@.len(),
            forall|q: int| 0 <= q < k ==> #[trigger] columns@[q].0@ != name@,
    {
        if str_eq(columns[k].0.as_str(), name) {
            return true;
        }
    }
    false
}

/// Whether the earlier experimental layout's boards are migrated: see
/// [`experimental_outcome`].
pub fn experimental_source(
    has_boards: bool,
    has_snapshots: bool,
    board_columns: &Vec<TableColumn>,
    snapshot_columns: &Vec<TableColumn>,
) -> (r: Result<bool, String>)
    ensures
        match experimental_outcome(has_boards, has_snapshots, board_columns@, snapshot_columns@) {
            Ok(b) => r == Ok::<bool, String>(b),
            Err(m) => r matches Err(e) && e@ == m,
        },
{
    let looks = integer_id_listed(board_columns) && column_named(board_columns, "name");
    if !has_boards && !has_snapshots {
        return Ok(false);
    }
    if has_boards && !has_snapshots && !looks {
        return Ok(false);
    }
    if !(has_boards && has_snapshots) {
        return Err(
            String::from_str(
                "Incomplete experimental multi-board schema: both boards and board_snapshots are required. No data was changed.",
            ),
        );
    }
    Ok(looks && column_named(snapshot_columns, "board_id") && column_named(snapshot_columns, "payload"))
}

/// The experimental boards are migrated only when each of them has its
/// snapshot: `rows` boards with a snapshot, of `board_count` boards.
pub fn check_experimental_rows(rows: usize, board_count: i64) -> (r: Result<(), String>)
    ensures
        r is Ok <==> rows == board_count,
        r matches Err(e) ==> e@
            == "Experimental board snapshots are incomplete; migration was rolled back to avoid data loss."@,
{
    if board_count < 0 || rows as u128 != board_count as u128 {
        Err(
            String::from_str(
                "Experimental board snapshots are incomplete; migration was rolled back to avoid data loss.",
            ),
        )
    } else {
        Ok(())
    }
}

/// The board to open after migrating experimental boards: the one that
/// layout had open when it is among `existing`, else the first migrated.
pub fn active_after_migration(preferred: Option<i64>, existing: &Vec<i64>, first: Option<i64>) -> (r: Result<
    i64,
    String,
>)
    ensures
        (preferred matches Some(p) && existing@.contains(p)) ==> r == Ok::<i64, String>(preferred.unwrap()),
        !(preferred matches Some(p) && existing@.contains(p)) ==> match first {
            Some(f) => r == Ok::<i64, String>(f),
            None => r matches Err(e) && e@ == "Experimental board migration contained no boards"@,
        },
{
    if let Some(p) = preferred {
        let n = existing.len();
        for k in 0..n
            invariant
                n == existing@.len(),
                preferred == Some(p),
                forall|q: int| 0 <= q < k ==> existing@[q] != p,
        {
            if existing[k] == p {
                assert(existing@[k as int] == p);
                return Ok(p);
            }
        }
    }
    match first {
        Some(f) => Ok(f),
        None => Err(String::from_str("Experimental board migration contained no boards")),
    }
}

/// The index of the last identifier equal to `id`, if any.
pub open spec fn last_index(ids: Seq<i64>, id: i64) -> Option<int>
    decreases ids.len(),
{
    if ids.len() == 0 {
        None
    } else if ids.last() == id {
        Some(ids.len() - 1)
    } else {
        last_index(ids.drop_last(), id)
    }
}

/// The views of the tasks, in order.
pub open spec fn task_views(tasks: Seq<Task>) -> Seq<TaskView> {
    tasks.map_values(|t: Task| t@)
}

/// The identifiers of the columns, in order.
pub open spec fn column_ids_of(columns: Seq<Column>) -> Seq<i64> {
    columns.map_values(|c: Column| c.id)
}

/// The tasks of the stored rows, in order, that go to column `i`: a row
/// goes to the last column with the identifier it names.
pub open spec fn routed(ids: Seq<i64>, rows: Seq<(i64, Task)>, i: int) -> Seq<TaskView>
    decreases rows.len(),
{
    if rows.len() == 0 {
        Seq::empty()
    } else if last_index(ids, rows.last().0) == Some(i) {
        routed(ids, rows.drop_last(), i).push(rows.last().1@)
    } else {
        routed(ids, rows.drop_last(), i)
    }
}

/// Row `k` is the first that names no column.
pub open spec fn first_stray_row(ids: Seq<i64>, rows: Seq<(i64, Task)>, k: int) -> bool {
    &&& 0 <= k < rows.len()
    &&& last_index(ids, rows[k].0) is None
    &&& forall|q: int| 0 <= q < k ==> #[trigger] last_index(ids, rows[q].0) is Some
}

fn find_last_index(ids: &Vec<i64>, id: i64) -> (r: Option<usize>)
    ensures
        match r {
            Some(i) => last_index(ids@, id) == Some(i as int),
            None => last_index(ids@, id) is None,
        },
{
    let mut k = ids.len();
    proof {
        assert(ids@.take(k as int) =~= ids@);
    }
    while k > 0
        invariant
            k <= ids@.len(),
            last_index(ids@, id) == last_index(ids@.take(k as int), id),
        decreases k,
    {
        proof {
            assert(ids@.take(k as int).drop_last() =~= ids@.take(k - 1));
        }
        if ids[k - 1] == id {
            return Some(k - 1);
        }
        k = k - 1;
    }
    None
}

/// The refusal of a stored task row whose column does not exist; the rows
/// of a board of the multi-board store name the board.
pub open spec fn stray_message(board_id: Option<i64>, task_id: i64, column_id: i64) -> Seq<char> {
    let start = match board_id {
        Some(b) => "Board "@ + int_decimal(b as int) + " task "@,
        None => "Task "@,
    };
    start + int_decimal(task_id as int) + " refers to missing column "@ + int_decimal(column_id as int)
}

/// Column `c` is column `original` with the tasks `added` put at its end.
pub open spec fn filled(c: Column, original: Column, added: Seq<TaskView>) -> bool {
    &&& c.id == original.id
    &&& c.name == original.name
    &&& c.color == original.color
    &&& c.sort_order == original.sort_order
    &&& task_views(c.tasks@) == task_views(original.tasks@) + added
}

/// The columns of a board as stored, with the stored task rows put back:
/// each row (the identifier of its column, its task), in order, goes to the
/// end of the last column with that identifier. A row that names no column
/// refuses the whole board: see [`stray_message`].
#[verifier::loop_isolation(false)]
pub fn place_tasks(board_id: Option<i64>, columns: Vec<Column>, rows: &Vec<(i64, Task)>) -> (r: Result<Vec<Column>, String>)
    ensures
        (forall|k: int| 0 <= k < rows@.len() ==> #[trigger] last_index(column_ids_of(columns@), rows@[k].0) is Some)
            ==> (r matches Ok(cs) && cs@.len() == columns@.len() && forall|i: int|
            0 <= i < cs@.len() ==> filled(#[trigger] cs@[i], columns@[i], routed(column_ids_of(columns@), rows@, i))),
        forall|k: int| #[trigger]
            first_stray_row(column_ids_of(columns@), rows@, k) ==> (r matches Err(e) && e@ == stray_message(
                board_id,
                rows@[k].1.id,
                rows@[k].0,
            )),
{
    let ghost ids0 = column_ids_of(columns@);
    let ghost cols0 = columns@;
    let mut ids: Vec<i64> = Vec::new();
    let nc = columns.len();
    for i in 0..nc
        invariant
            nc == columns@.len(),
            ids@ == column_ids_of(columns@).take(i as int),
    {
        ids.push(columns[i].id);
        proof {
            assert(ids@ =~= column_ids_of(columns@).take(i + 1));
        }
    }
    proof {
        assert(ids@ =~= ids0);
        assert forall|i: int| 0 <= i < cols0.len() implies filled(#[trigger] cols0[i], cols0[i], routed(ids0, rows@.take(0), i)) by {
            assert(task_views(cols0[i].tasks@) + Seq::<TaskView>::empty() =~= task_views(cols0[i].tasks@));
        }
    }
    let mut cols = columns;
    let n = rows.len();
    for k in 0..n
        invariant
            n == rows@.len(),
            ids@ == ids0,
            ids0 == column_ids_of(cols0),
            cols@.len() == cols0.len(),
            forall|q: int| 0 <= q < k ==> #[trigger] last_index(ids0, rows@[q].0) is Some,
            forall|i: int| 0 <= i < cols@.len() ==> filled(#[trigger] cols@[i], cols0[i], routed(ids0, rows@.take(k as int), i)),
    {
        let cid = rows[k].0;
        proof {
            assert(rows@.take(k + 1).drop_last() =~= rows@.take(k as int));
            assert(rows@.take(k + 1).last() == rows@[k as int]);
        }
        match find_last_index(&ids, cid) {
            None => {
                let mut e = match board_id {
                    Some(b) => {
                        let mut e = String::from_str("Board ");
                        push_i64_decimal(&mut e, b);
                        e.append(" task ");
                        e
                    },
                    None => String::from_str("Task "),
                };
                push_i64_decimal(&mut e, rows[k].1.id);
                e.append(" refers to missing column ");
                push_i64_decimal(&mut e, cid);
                proof {
                    assert(first_stray_row(ids0, rows@, k as int));
                    assert forall|j: int| #[trigger] first_stray_row(ids0, rows@, j) implies j == k by {
                        if j < k {
                        } else if k < j {
                            assert(last_index(ids0, rows@[k as int].0) is Some);
                        }
                    }
                }
                return Err(e);
            },
            Some(slot) => {
                proof {
                    lemma_last_index_bound(ids0, cid);
                }
                let task = copy_task(&rows[k].1);
                let ghost before = cols@;
                cols[slot].tasks.push(task);
                proof {
                    assert forall|i: int| 0 <= i < cols@.len() implies filled(
                        #[trigger] cols@[i],
                        cols0[i],
                        routed(ids0, rows@.take(k + 1), i),
                    ) by {
                        let prev = routed(ids0, rows@.take(k as int), i);
                        let base = task_views(cols0[i].tasks@);
                        assert(filled(before[i], cols0[i], prev));
                        assert(routed(ids0, rows@.take(k + 1), i) == if i == slot {
                            prev.push(rows@[k as int].1@)
                        } else {
                            prev
                        });
                        if i == slot {
                            assert(task_views(cols@[i].tasks@) =~= task_views(before[i].tasks@).push(rows@[k as int].1@));
                            assert((base + prev).push(rows@[k as int].1@) =~= base + prev.push(rows@[k as int].1@));
                        } else {
                            assert(cols@[i] == before[i]);
                        }
                    }
                }
            },
        }
    }
    proof {
        assert(rows@.take(n as int) =~= rows@);
        assert forall|j: int| #[trigger] first_stray_row(ids0, rows@, j) implies false by {
            assert(last_index(ids0, rows@[j].0) is Some);
        }
    }
    Ok(cols)
}

/// A found index lies within the identifiers.
pub proof fn lemma_last_index_bound(ids: Seq<i64>, id: i64)
    ensures
        last_index(ids, id) matches Some(i) ==> 0 <= i < ids.len() && ids[i] == id,
    decreases ids.len(),
{
    if ids.len() > 0 && ids.last() != id {
        lemma_last_index_bound(ids.drop_last(), id);
    }
}

} // verus!
