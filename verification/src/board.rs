//! Lookups on a board's columns and tasks.
use vstd::prelude::*;
use vstd::string::StringExecFns;
use crate::models::{Column, ColumnSort, StoredData, Task};
use crate::stored::{views, without};
use crate::text::{int_decimal, push_i64_decimal};
use crate::archive::with_column_tasks;

verus! {

/// The index of the first column with identifier `id`.
pub open spec fn column_at(d: StoredData, id: i64, i: int) -> bool {
    0 <= i < d.columns@.len() && d.columns@[i].id == id && forall|k: int|
        0 <= k < i ==> #[trigger] d.columns@[k].id != id
}

/// Some column has identifier `id`.
pub open spec fn has_column(d: StoredData, id: i64) -> bool {
    exists|i: int| 0 <= i < d.columns@.len() && #[trigger] d.columns@[i].id == id
}

/// The first task with identifier `id`, searching column by column: it is
/// task `j` of column `i`.
pub open spec fn task_at(d: StoredData, id: i64, i: int, j: int) -> bool {
    &&& 0 <= i < d.columns@.len()
    &&& 0 <= j < d.columns@[i].tasks@.len()
    &&& d.columns@[i].tasks@[j].id == id
    &&& forall|k: int| 0 <= k < j ==> #[trigger] d.columns@[i].tasks@[k].id != id
    &&& forall|c: int, k: int|
        0 <= c < i && 0 <= k < d.columns@[c].tasks@.len() ==> #[trigger] d.columns@[c].tasks@[k].id != id
}

/// Some column holds a task with identifier `id`.
pub open spec fn has_task(d: StoredData, id: i64) -> bool {
    exists|i: int, j: int|
        0 <= i < d.columns@.len() && 0 <= j < d.columns@[i].tasks@.len() && #[trigger] d.columns@[i].tasks@[j].id
            == id
}

/// `prefix` followed by the decimal notation of `id`.
pub fn message_with_id(prefix: &str, id: i64) -> (r: String)
    ensures
        r@ == prefix@ + int_decimal(id as int),
{
    let mut s = String::from_str(prefix);
    push_i64_decimal(&mut s, id);
    s
}

/// The index of the column with identifier `column_id`.
pub fn column_index(data: &StoredData, column_id: i64) -> (r: Result<usize, String>)
    ensures
        r matches Ok(i) ==> column_at(*data, column_id, i as int),
        r is Err <==> !has_column(*data, column_id),
        r matches Err(e) ==> e@ == "Column not found: "@ + int_decimal(column_id as int),
{
    let n = data.columns.len();
    for i in 0..n
        invariant
            n == data.columns@.len(),
            forall|k: int| 0 <= k < i ==> #[trigger] data.columns@[k].id != column_id,
    {
        if data.columns[i].id == column_id {
            return Ok(i);
        }
    }
    Err(message_with_id("Column not found: ", column_id))
}

/// The index in `tasks` of the first task with identifier `id`.
pub fn task_index_in(tasks: &Vec<crate::models::Task>, id: i64) -> (r: Option<usize>)
    ensures
        r matches Some(j) ==> j < tasks@.len() && tasks@[j as int].id == id && forall|k: int|
            0 <= k < j ==> #[trigger] tasks@[k].id != id,
        r is None ==> forall|k: int| 0 <= k < tasks@.len() ==> #[trigger] tasks@[k].id != id,
{
    let n = tasks.len();
    for j in 0..n
        invariant
            n == tasks@.len(),
            forall|k: int| 0 <= k < j ==> #[trigger] tasks@[k].id != id,
    {
        if tasks[j].id == id {
            return Some(j);
        }
    }
    None
}

/// The column index and task index of the task with identifier `task_id`.
pub fn task_position(data: &StoredData, task_id: i64) -> (r: Result<(usize, usize), String>)
    ensures
        r matches Ok((i, j)) ==> task_at(*data, task_id, i as int, j as int),
        r is Err <==> !has_task(*data, task_id),
        r matches Err(e) ==> e@ == "Task not found: "@ + int_decimal(task_id as int),
{
    let n = data.columns.len();
    for i in 0..n
        invariant
            n == data.columns@.len(),
            forall|c: int, k: int|
                0 <= c < i && 0 <= k < data.columns@[c].tasks@.len() ==> #[trigger] data.columns@[c].tasks@[k].id
                    != task_id,
    {
        match task_index_in(&data.columns[i].tasks, task_id) {
            Some(j) => {
                return Ok((i, j));
            },
            None => {},
        }
    }
    Err(message_with_id("Task not found: ", task_id))
}


/// The label recency after touching `label`: it comes first, once.
pub open spec fn touched(recency: Seq<Seq<char>>, label: Seq<char>) -> Seq<Seq<char>> {
    seq![label] + without(recency, label)
}

/// The label recency after touching, in order, every label of `labels`
/// that is not among `known`.
pub open spec fn touched_all(recency: Seq<Seq<char>>, labels: Seq<Seq<char>>, known: Seq<Seq<char>>) -> Seq<
    Seq<char>,
>
    decreases labels.len(),
{
    if labels.len() == 0 {
        recency
    } else {
        let r = touched_all(recency, labels.drop_last(), known);
        if known.contains(labels.last()) {
            r
        } else {
            touched(r, labels.last())
        }
    }
}

/// Whether `v` holds a string equal to `s`.
fn strings_contain(v: &Vec<String>, s: &String) -> (r: bool)
    ensures
        r == views(v@).contains(s@),
{
    let n = v.len();
    for i in 0..n
        invariant
            n == v@.len(),
            forall|k: int| 0 <= k < i ==> #[trigger] v@[k]@ != s@,
    {
        if v[i] == *s {
            proof {
                assert(views(v@)[i as int] == s@);
            }
            return true;
        }
    }
    proof {
        if views(v@).contains(s@) {
            let k = choose|k: int| 0 <= k < views(v@).len() && views(v@)[k] == s@;
            assert(v@[k]@ == s@);
        }
    }
    false
}

impl StoredData {
    /// Touches, in order, every label of `labels` that `known` does not hold.
    pub fn touch_labels(&mut self, labels: &Vec<String>, known: &Vec<String>)
        ensures
            views(final(self).label_recency@) == touched_all(
                views(old(self).label_recency@),
                views(labels@),
                views(known@),
            ),
            *final(self) == (StoredData { label_recency: final(self).label_recency, ..*old(self) }),
    {
        let n = labels.len();
        for i in 0..n
            invariant
                n == labels@.len(),
                views(self.label_recency@) == touched_all(
                    views(old(self).label_recency@),
                    views(labels@.take(i as int)),
                    views(known@),
                ),
                *self == (StoredData { label_recency: self.label_recency, ..*old(self) }),
        {
            proof {
                assert(views(labels@.take(i + 1)).drop_last() =~= views(labels@.take(i as int)));
                assert(views(labels@.take(i + 1)).last() == labels@[i as int]@);
            }
            if !strings_contain(known, &labels[i]) {
                self.touch_label(labels[i].clone());
            }
        }
        proof {
            assert(labels@.take(n as int) =~= labels@);
        }
    }

    /// Adds an empty column in custom order at the end, with the next column
    /// identifier, which it returns.
    pub fn add_column(&mut self, name: String, color: String) -> (r: Result<i64, String>)
        ensures
            old(self).next_column_id == i64::MAX ==> (r matches Err(e) && e@ == "Column ID range exhausted"@)
                && *final(self) == *old(self),
            old(self).next_column_id < i64::MAX ==> {
                &&& r == Ok::<i64, String>(old(self).next_column_id)
                &&& final(self).columns@ == old(self).columns@.push(
                    final(self).columns@[old(self).columns@.len() as int],
                )
                &&& final(self).columns@.last() == (Column {
                    id: old(self).next_column_id,
                    name: name,
                    color: color,
                    sort_order: ColumnSort::Custom,
                    tasks: final(self).columns@.last().tasks,
                })
                &&& final(self).columns@.last().tasks@.len() == 0
                &&& *final(self) == (StoredData {
                    columns: final(self).columns,
                    next_column_id: (old(self).next_column_id + 1) as i64,
                    ..*old(self)
                })
            },
    {
        let id = match self.allocate_column_id() {
            Ok(id) => id,
            Err(e) => return Err(e),
        };
        self.columns.push(Column { id, name, color, sort_order: ColumnSort::Custom, tasks: Vec::new() });
        Ok(id)
    }

    /// Renames, recolours and re-sorts the column with identifier
    /// `column_id`.
    pub fn update_column(&mut self, column_id: i64, name: String, color: String, sort_order: ColumnSort) -> (r:
        Result<(), String>)
        ensures
            !has_column(*old(self), column_id) ==> (r matches Err(e) && e@ == "Column not found: "@
                + int_decimal(column_id as int)) && *final(self) == *old(self),
            forall|i: int|
                #[trigger] column_at(*old(self), column_id, i) ==> r is Ok && final(self).columns@
                    == old(self).columns@.update(
                    i,
                    Column { name: name, color: color, sort_order: sort_order, ..old(self).columns@[i] },
                ) && *final(self) == (StoredData { columns: final(self).columns, ..*old(self) }),
    {
        let index = match column_index(self, column_id) {
            Ok(i) => i,
            Err(e) => return Err(e),
        };
        proof {
            lemma_first_column_unique(*self, column_id, index as int);
        }
        self.columns[index].name = name;
        self.columns[index].color = color;
        self.columns[index].sort_order = sort_order;
        Ok(())
    }

    /// Deletes the column with identifier `column_id`, with its tasks.
    pub fn delete_column(&mut self, column_id: i64) -> (r: Result<(), String>)
        ensures
            !has_column(*old(self), column_id) ==> (r matches Err(e) && e@ == "Column not found: "@
                + int_decimal(column_id as int)) && *final(self) == *old(self),
            forall|i: int|
                #[trigger] column_at(*old(self), column_id, i) ==> r is Ok && final(self).columns@
                    == old(self).columns@.remove(i) && *final(self) == (StoredData {
                    columns: final(self).columns,
                    ..*old(self)
                }),
    {
        let index = match column_index(self, column_id) {
            Ok(i) => i,
            Err(e) => return Err(e),
        };
        proof {
            lemma_first_column_unique(*self, column_id, index as int);
        }
        self.columns.remove(index);
        Ok(())
    }
}

/// A column identifier has at most one first position.
pub proof fn lemma_first_column_unique(d: StoredData, id: i64, i: int)
    requires
        column_at(d, id, i),
    ensures
        forall|k: int| #[trigger] column_at(d, id, k) ==> k == i,
{
    assert forall|k: int| #[trigger] column_at(d, id, k) implies k == i by {
        if k < i {
            assert(d.columns@[k].id == id);
        } else if i < k {
            assert(d.columns@[i].id == id);
        }
    }
}


/// The index of the first column of `cols` with identifier `id`.
pub open spec fn first_column(cols: Seq<Column>, id: i64, i: int) -> bool {
    0 <= i < cols.len() && cols[i].id == id && forall|k: int| 0 <= k < i ==> #[trigger] cols[k].id != id
}

/// Some column of `cols` has identifier `id`.
pub open spec fn holds_column(cols: Seq<Column>, id: i64) -> bool {
    exists|i: int| 0 <= i < cols.len() && #[trigger] cols[i].id == id
}

/// The index of the first task of `tasks` with identifier `id`.
pub open spec fn first_task(tasks: Seq<Task>, id: i64, j: int) -> bool {
    0 <= j < tasks.len() && tasks[j].id == id && forall|k: int| 0 <= k < j ==> #[trigger] tasks[k].id != id
}

/// Some task of `tasks` has identifier `id`.
pub open spec fn holds_task(tasks: Seq<Task>, id: i64) -> bool {
    exists|j: int| 0 <= j < tasks.len() && #[trigger] tasks[j].id == id
}

/// `new` holds the columns of `old`, except that column `a` holds `ta` and
/// column `b` holds `tb`.
pub open spec fn with_two_column_tasks(
    old: Seq<Column>,
    new: Seq<Column>,
    a: int,
    ta: Seq<Task>,
    b: int,
    tb: Seq<Task>,
) -> bool {
    &&& new.len() == old.len()
    &&& 0 <= a < old.len()
    &&& 0 <= b < old.len()
    &&& a != b
    &&& forall|c: int| 0 <= c < old.len() && c != a && c != b ==> #[trigger] new[c] == old[c]
    &&& new[a] == (Column { tasks: new[a].tasks, ..old[a] })
    &&& new[b] == (Column { tasks: new[b].tasks, ..old[b] })
    &&& new[a].tasks@ == ta
    &&& new[b].tasks@ == tb
}

/// The index in `cols` of the first column with identifier `id`.
fn column_index_in(cols: &Vec<Column>, id: i64) -> (r: Option<usize>)
    ensures
        r matches Some(i) ==> first_column(cols@, id, i as int),
        r is None <==> !holds_column(cols@, id),
{
    let n = cols.len();
    for i in 0..n
        invariant
            n == cols@.len(),
            forall|k: int| 0 <= k < i ==> #[trigger] cols@[k].id != id,
    {
        if cols[i].id == id {
            return Some(i);
        }
    }
    None
}

proof fn lemma_first_task_unique(tasks: Seq<Task>, id: i64, j: int)
    requires
        first_task(tasks, id, j),
    ensures
        forall|k: int| #[trigger] first_task(tasks, id, k) ==> k == j,
{
    assert forall|k: int| #[trigger] first_task(tasks, id, k) implies k == j by {
        if k < j {
            assert(tasks[k].id == id);
        } else if j < k {
            assert(tasks[j].id == id);
        }
    }
}

proof fn lemma_first_column_seq_unique(cols: Seq<Column>, id: i64, i: int)
    requires
        first_column(cols, id, i),
    ensures
        forall|k: int| #[trigger] first_column(cols, id, k) ==> k == i,
{
    assert forall|k: int| #[trigger] first_column(cols, id, k) implies k == i by {
        if k < i {
            assert(cols[k].id == id);
        } else if i < k {
            assert(cols[i].id == id);
        }
    }
}

/// A task identifier has at most one first position.
pub proof fn lemma_task_at_unique(d: StoredData, id: i64, i: int, j: int)
    requires
        task_at(d, id, i, j),
    ensures
        forall|a: int, b: int| #[trigger] task_at(d, id, a, b) ==> a == i && b == j,
{
    assert forall|a: int, b: int| #[trigger] task_at(d, id, a, b) implies a == i && b == j by {
        if a < i {
            assert(d.columns@[a].tasks@[b].id == id);
        } else if i < a {
            assert(d.columns@[i].tasks@[j].id == id);
        } else if b < j {
            assert(d.columns@[i].tasks@[b].id == id);
        } else if j < b {
            assert(d.columns@[i].tasks@[j].id == id);
        }
    }
}

impl StoredData {
    /// Moves the column with identifier `column_id` in front of the column
    /// with identifier `before_column_id`, or to the end. Moving a column in
    /// front of itself changes nothing.
    pub fn move_column(&mut self, column_id: i64, before_column_id: Option<i64>) -> (r: Result<(), String>)
        ensures
            before_column_id == Some(column_id) ==> r is Ok && *final(self) == *old(self),
            before_column_id != Some(column_id) && !has_column(*old(self), column_id) ==> (r matches Err(
                e,
            ) && e@ == "Column not found: "@ + int_decimal(column_id as int)) && *final(self) == *old(self),
            before_column_id != Some(column_id) ==> forall|from: int| #[trigger]
                column_at(*old(self), column_id, from) ==> {
                    let rest = old(self).columns@.remove(from);
                    let moved = old(self).columns@[from];
                    match before_column_id {
                        None => r is Ok && final(self).columns@ == rest.push(moved),
                        Some(b) => if holds_column(rest, b) {
                            r is Ok && forall|d: int| #[trigger] first_column(rest, b, d) ==> final(self).columns@
                                == rest.insert(d, moved)
                        } else {
                            (r matches Err(e) && e@ == "Column not found: "@ + int_decimal(b as int))
                                && final(self).columns@ == old(self).columns@
                        },
                    }
                },
            *final(self) == (StoredData { columns: final(self).columns, ..*old(self) }),
    {
        if before_column_id == Some(column_id) {
            return Ok(());
        }
        let from = match column_index(self, column_id) {
            Ok(i) => i,
            Err(e) => return Err(e),
        };
        proof {
            lemma_first_column_unique(*self, column_id, from as int);
        }
        let column = self.columns.remove(from);
        let ghost rest = self.columns@;
        match before_column_id {
            None => {
                self.columns.push(column);
                Ok(())
            },
            Some(b) => match column_index_in(&self.columns, b) {
                Some(d) => {
                    proof {
                        lemma_first_column_seq_unique(rest, b, d as int);
                    }
                    self.columns.insert(d, column);
                    Ok(())
                },
                None => {
                    self.columns.insert(from, column);
                    proof {
                        assert(self.columns@ =~= old(self).columns@);
                    }
                    Err(message_with_id("Column not found: ", b))
                },
            },
        }
    }

    /// Deletes the task with identifier `task_id`.
    pub fn delete_task(&mut self, task_id: i64) -> (r: Result<(), String>)
        ensures
            !has_task(*old(self), task_id) ==> (r matches Err(e) && e@ == "Task not found: "@ + int_decimal(
                task_id as int,
            )) && *final(self) == *old(self),
            forall|i: int, j: int| #[trigger]
                task_at(*old(self), task_id, i, j) ==> r is Ok && with_column_tasks(
                    old(self).columns@,
                    final(self).columns@,
                    i,
                    old(self).columns@[i].tasks@.remove(j),
                ),
            *final(self) == (StoredData { columns: final(self).columns, ..*old(self) }),
    {
        let (c, j) = match task_position(self, task_id) {
            Ok(p) => p,
            Err(e) => return Err(e),
        };
        proof {
            lemma_task_at_unique(*self, task_id, c as int, j as int);
        }
        let ghost before = self.columns@[c as int].tasks@;
        self.columns[c].tasks.remove(j);
        proof {
            assert(self.columns@[c as int].tasks@ =~= before.remove(j as int));
        }
        Ok(())
    }

    /// Moves the task with identifier `task_id` into the column with
    /// identifier `to_column_id`, in front of the task with identifier
    /// `before_task_id` there, or to its end. Moving a task in front of
    /// itself changes nothing.
    pub fn move_task(&mut self, task_id: i64, to_column_id: i64, before_task_id: Option<i64>) -> (r: Result<
        (),
        String,
    >)
        ensures
            before_task_id == Some(task_id) ==> r is Ok && *final(self) == *old(self),
            before_task_id != Some(task_id) && !has_task(*old(self), task_id) ==> (r matches Err(e) && e@
                == "Task not found: "@ + int_decimal(task_id as int)) && *final(self) == *old(self),
            before_task_id != Some(task_id) ==> forall|c: int, j: int| #[trigger]
                task_at(*old(self), task_id, c, j) ==> move_outcome(
                    old(self).columns@,
                    final(self).columns@,
                    c,
                    j,
                    to_column_id,
                    before_task_id,
                    match r {
                        Ok(_) => Ok(()),
                        Err(e) => Err(e@),
                    },
                ),
            *final(self) == (StoredData { columns: final(self).columns, ..*old(self) }),
    {
        if before_task_id == Some(task_id) {
            return Ok(());
        }
        let (c, j) = match task_position(self, task_id) {
            Ok(p) => p,
            Err(e) => return Err(e),
        };
        proof {
            lemma_task_at_unique(*self, task_id, c as int, j as int);
        }
        let ghost orig = self.columns@;
        let task = self.columns[c].tasks.remove(j);
        let ghost mid = self.columns@;
        let to = match column_index_in(&self.columns, to_column_id) {
            Some(t) => t,
            None => {
                self.columns[c].tasks.insert(j, task);
                proof {
                    assert(self.columns@[c as int].tasks@ =~= orig[c as int].tasks@);
                    assert(same_columns(orig, self.columns@));
                    assert forall|k: int| 0 <= k < mid.len() implies mid[k].id == orig[k].id by {}
                    assert(!holds_column(orig, to_column_id));
                }
                return Err(message_with_id("Column not found: ", to_column_id));
            },
        };
        proof {
            lemma_first_column_seq_unique(mid, to_column_id, to as int);
            assert forall|k: int| 0 <= k < mid.len() implies mid[k].id == orig[k].id by {}
            assert(first_column(orig, to_column_id, to as int));
            lemma_first_column_seq_unique(orig, to_column_id, to as int);
        }
        let ghost target = self.columns@[to as int].tasks@;
        let destination = match before_task_id {
            Some(b) => match task_index_in(&self.columns[to].tasks, b) {
                Some(d) => d,
                None => {
                    self.columns[c].tasks.insert(j, task);
                    proof {
                        assert(self.columns@[c as int].tasks@ =~= orig[c as int].tasks@);
                        assert(same_columns(orig, self.columns@));
                        assert(!holds_task(target, b));
                    }
                    return Err(message_with_id("Destination task not found in column: ", b));
                },
            },
            None => self.columns[to].tasks.len(),
        };
        proof {
            if let Some(b) = before_task_id {
                assert(first_task(target, b, destination as int));
                lemma_first_task_unique(target, b, destination as int);
            }
        }
        let ghost moved = task;
        self.columns[to].tasks.insert(destination, task);
        proof {
            assert(moved == orig[c as int].tasks@[j as int]);
            assert(target == (if to == c {
                orig[c as int].tasks@.remove(j as int)
            } else {
                orig[to as int].tasks@
            }));
            if before_task_id is None {
                assert(target.insert(destination as int, moved) =~= target.push(moved));
            }
            assert(placed(orig, self.columns@, c as int, j as int, to as int, target.insert(destination as int, moved)))
                by {
                if to == c {
                    assert(self.columns@[c as int].tasks@ =~= target.insert(destination as int, moved));
                } else {
                    assert(self.columns@[c as int].tasks@ =~= orig[c as int].tasks@.remove(j as int));
                    assert(self.columns@[to as int].tasks@ =~= target.insert(destination as int, moved));
                }
            }
            assert(move_outcome(orig, self.columns@, c as int, j as int, to_column_id, before_task_id, Ok(())));
            if to == c {
                assert(self.columns@[c as int].tasks@ =~= orig[c as int].tasks@.remove(j as int).insert(
                    destination as int,
                    orig[c as int].tasks@[j as int],
                ));
            } else {
                assert(self.columns@[c as int].tasks@ =~= orig[c as int].tasks@.remove(j as int));
                assert(self.columns@[to as int].tasks@ =~= orig[to as int].tasks@.insert(
                    destination as int,
                    orig[c as int].tasks@[j as int],
                ));
            }
        }
        Ok(())
    }
}

/// What moving task `j` of column `c` into the column with identifier
/// `to_id`, in front of the task with identifier `before` or at the end,
/// does: the destination column is looked up, and the task in front of which
/// it goes is looked up there once the moved task has left.
pub open spec fn move_outcome(
    old: Seq<Column>,
    new: Seq<Column>,
    c: int,
    j: int,
    to_id: i64,
    before: Option<i64>,
    r: Result<(), Seq<char>>,
) -> bool {
    let task = old[c].tasks@[j];
    if !holds_column(old, to_id) {
        r == Err::<(), Seq<char>>("Column not found: "@ + int_decimal(to_id as int)) && same_columns(old, new)
    } else {
        forall|t: int| #[trigger]
            first_column(old, to_id, t) ==> {
                let target = if t == c {
                    old[c].tasks@.remove(j)
                } else {
                    old[t].tasks@
                };
                match before {
                    Some(b) => if !holds_task(target, b) {
                        r == Err::<(), Seq<char>>(
                            "Destination task not found in column: "@ + int_decimal(b as int),
                        ) && same_columns(old, new)
                    } else {
                        r is Ok && forall|d: int| #[trigger]
                            first_task(target, b, d) ==> placed(old, new, c, j, t, target.insert(d, task))
                    },
                    None => r is Ok && placed(old, new, c, j, t, target.push(task)),
                }
            }
    }
}

/// `new` holds the same columns as `old`, with the same tasks.
pub open spec fn same_columns(old: Seq<Column>, new: Seq<Column>) -> bool {
    &&& new.len() == old.len()
    &&& forall|i: int|
        0 <= i < old.len() ==> #[trigger] new[i] == (Column { tasks: new[i].tasks, ..old[i] })
            && new[i].tasks@ == old[i].tasks@
}

/// `new` is `old` with task `j` of column `c` gone and column `t` holding
/// `dest`.
pub open spec fn placed(old: Seq<Column>, new: Seq<Column>, c: int, j: int, t: int, dest: Seq<Task>) -> bool {
    if t == c {
        with_column_tasks(old, new, c, dest)
    } else {
        with_two_column_tasks(old, new, c, old[c].tasks@.remove(j), t, dest)
    }
}


impl StoredData {
    /// Adds `task` to the column with identifier `column_id`, after the task
    /// with identifier `after_task_id` there or at the end, with the next
    /// task identifier, which it returns. Its labels become the most
    /// recently used ones, in order.
    pub fn add_task(&mut self, column_id: i64, task: Task, after_task_id: Option<i64>) -> (r: Result<
        i64,
        String,
    >)
        ensures
            !has_column(*old(self), column_id) ==> (r matches Err(e) && e@ == "Column not found: "@
                + int_decimal(column_id as int)) && *final(self) == *old(self),
            forall|i: int| #[trigger]
                column_at(*old(self), column_id, i) ==> {
                    let tasks = old(self).columns@[i].tasks@;
                    let id = old(self).next_task_id;
                    if after_task_id is Some && !holds_task(tasks, after_task_id.unwrap()) {
                        (r matches Err(e) && e@ == "Original task not found in column: "@ + int_decimal(
                            after_task_id.unwrap() as int,
                        )) && *final(self) == *old(self)
                    } else if id == i64::MAX {
                        (r matches Err(e) && e@ == "Task ID range exhausted"@) && *final(self) == *old(self)
                    } else {
                        &&& r == Ok::<i64, String>(id)
                        &&& forall|dest: int|
                            (match after_task_id {
                                Some(a) => first_task(tasks, a, dest - 1),
                                None => dest == tasks.len(),
                            }) ==> #[trigger] with_column_tasks(
                                old(self).columns@,
                                final(self).columns@,
                                i,
                                tasks.insert(dest, Task { id: id, ..task }),
                            )
                        &&& views(final(self).label_recency@) == touched_all(
                            views(old(self).label_recency@),
                            views(task.labels@),
                            Seq::empty(),
                        )
                        &&& *final(self) == (StoredData {
                            columns: final(self).columns,
                            label_recency: final(self).label_recency,
                            next_task_id: (id + 1) as i64,
                            ..*old(self)
                        })
                    }
                },
    {
        let column = match column_index(self, column_id) {
            Ok(i) => i,
            Err(e) => return Err(e),
        };
        proof {
            lemma_first_column_unique(*self, column_id, column as int);
        }
        let ghost tasks = self.columns@[column as int].tasks@;
        let destination = match after_task_id {
            Some(a) => match task_index_in(&self.columns[column].tasks, a) {
                Some(k) => {
                    proof {
                        lemma_first_task_unique(tasks, a, k as int);
                        assert(k < self.columns@[column as int].tasks@.len());
                        assert(self.columns[column as int].tasks.len() <= usize::MAX);
                    }
                    k + 1
                },
                None => return Err(message_with_id("Original task not found in column: ", a)),
            },
            None => self.columns[column].tasks.len(),
        };
        let id = match self.allocate_task_id() {
            Ok(id) => id,
            Err(e) => return Err(e),
        };
        let mut task = task;
        task.id = id;
        let none: Vec<String> = Vec::new();
        proof {
            assert(views(none@) =~= Seq::<Seq<char>>::empty());
        }
        self.touch_labels(&task.labels, &none);
        let ghost placed_task = task;
        self.columns[column].tasks.insert(destination, task);
        proof {
            assert(self.columns@[column as int].tasks@ =~= tasks.insert(destination as int, placed_task));
            assert forall|dest: int|
                (match after_task_id {
                    Some(a) => first_task(tasks, a, dest - 1),
                    None => dest == tasks.len(),
                }) implies #[trigger] with_column_tasks(
                old(self).columns@,
                self.columns@,
                column as int,
                tasks.insert(dest, placed_task),
            ) by {
                if let Some(a) = after_task_id {
                    lemma_first_task_unique(tasks, a, destination - 1);
                }
            }
        }
        Ok(id)
    }

    /// Replaces the task with identifier `task_id` by `task`, which keeps
    /// that identifier. Its labels that the old task did not carry become the
    /// most recently used ones, in order.
    pub fn update_task(&mut self, task_id: i64, task: Task) -> (r: Result<(), String>)
        ensures
            !has_task(*old(self), task_id) ==> (r matches Err(e) && e@ == "Task not found: "@ + int_decimal(
                task_id as int,
            )) && *final(self) == *old(self),
            forall|i: int, j: int| #[trigger]
                task_at(*old(self), task_id, i, j) ==> {
                    let tasks = old(self).columns@[i].tasks@;
                    &&& r is Ok
                    &&& with_column_tasks(
                        old(self).columns@,
                        final(self).columns@,
                        i,
                        tasks.update(j, Task { id: task_id, ..task }),
                    )
                    &&& views(final(self).label_recency@) == touched_all(
                        views(old(self).label_recency@),
                        views(task.labels@),
                        views(tasks[j].labels@),
                    )
                    &&& *final(self) == (StoredData {
                        columns: final(self).columns,
                        label_recency: final(self).label_recency,
                        ..*old(self)
                    })
                },
    {
        let (column, index) = match task_position(self, task_id) {
            Ok(p) => p,
            Err(e) => return Err(e),
        };
        proof {
            lemma_task_at_unique(*self, task_id, column as int, index as int);
        }
        let ghost tasks = self.columns@[column as int].tasks@;
        let previous_labels = self.columns[column].tasks[index].labels.clone();
        proof {
            assert(views(previous_labels@) =~= views(tasks[index as int].labels@));
        }
        let mut task = task;
        task.id = task_id;
        self.touch_labels(&task.labels, &previous_labels);
        let ghost placed_task = task;
        self.columns[column].tasks.set(index, task);
        proof {
            assert(self.columns@[column as int].tasks@ =~= tasks.update(index as int, placed_task));
        }
        Ok(())
    }
}

} // verus!
