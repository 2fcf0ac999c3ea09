//! Identifier allocation and repair, label recency and migration of a
//! board's stored data.
use vstd::prelude::*;
use crate::ids::{ids_repairable, lemma_repair_is_idempotent, next_after_repair, repair_count, repair_ids, repairable, repaired_ids};
use crate::models::{Archive, Column, StoredData, Task, TaskTemplate, CURRENT_SCHEMA_VERSION};
use crate::text::{nat_decimal, push_u128_decimal};

verus! {

/// The identifiers of the columns, in order.
pub open spec fn column_ids(cols: Seq<Column>) -> Seq<i64> {
    Seq::new(cols.len(), |i: int| cols[i].id)
}

/// The identifiers of the tasks, in order.
pub open spec fn task_ids_of(tasks: Seq<Task>) -> Seq<i64> {
    Seq::new(tasks.len(), |i: int| tasks[i].id)
}

/// The identifiers of the tasks of all columns, column by column.
pub open spec fn column_task_ids(cols: Seq<Column>) -> Seq<i64>
    decreases cols.len(),
{
    if cols.len() == 0 {
        Seq::empty()
    } else {
        column_task_ids(cols.drop_last()) + task_ids_of(cols.last().tasks@)
    }
}

/// The identifiers of the archived tasks, in order.
pub open spec fn archive_task_ids(archives: Seq<Archive>) -> Seq<i64> {
    Seq::new(archives.len(), |i: int| archives[i].task.id)
}

/// The identifiers of every task of a board: those in columns, then the
/// archived ones. Task identifiers are unique across both.
pub open spec fn all_task_ids(d: StoredData) -> Seq<i64> {
    column_task_ids(d.columns@) + archive_task_ids(d.archives@)
}

/// The identifiers of the templates, in order.
pub open spec fn template_ids(templates: Seq<TaskTemplate>) -> Seq<i64> {
    Seq::new(templates.len(), |i: int| templates[i].id)
}

/// `t` is `s` with the identifier `id`.
pub open spec fn task_with_id(s: Task, t: Task, id: i64) -> bool {
    t == (Task { id: id, ..s })
}

/// `new` holds the columns of `old` with the identifiers `ids`.
pub open spec fn columns_with_ids(old: Seq<Column>, new: Seq<Column>, ids: Seq<i64>) -> bool {
    &&& new.len() == old.len()
    &&& ids.len() == old.len()
    &&& forall|i: int| 0 <= i < old.len() ==> #[trigger] new[i] == (Column { id: ids[i], ..old[i] })
}

/// `new` holds the templates of `old` with the identifiers `ids`.
pub open spec fn templates_with_ids(old: Seq<TaskTemplate>, new: Seq<TaskTemplate>, ids: Seq<i64>) -> bool {
    &&& new.len() == old.len()
    &&& ids.len() == old.len()
    &&& forall|i: int| 0 <= i < old.len() ==> #[trigger] new[i] == (TaskTemplate { id: ids[i], ..old[i] })
}

/// `new` is `old` with only the identifiers of tasks changed.
pub open spec fn tasks_renumbered(old: Seq<Task>, new: Seq<Task>) -> bool {
    &&& new.len() == old.len()
    &&& forall|j: int| 0 <= j < old.len() ==> #[trigger] task_with_id(old[j], new[j], new[j].id)
}

/// `new` is `old` with only the identifiers of tasks in columns changed.
pub open spec fn columns_tasks_renumbered(old: Seq<Column>, new: Seq<Column>) -> bool {
    &&& new.len() == old.len()
    &&& forall|i: int|
        0 <= i < old.len() ==> {
            &&& #[trigger] new[i] == (Column { tasks: new[i].tasks, ..old[i] })
            &&& tasks_renumbered(old[i].tasks@, new[i].tasks@)
        }
}

/// `new` is `old` with only the identifiers of archived tasks changed.
pub open spec fn archives_renumbered(old: Seq<Archive>, new: Seq<Archive>) -> bool {
    &&& new.len() == old.len()
    &&& forall|i: int|
        0 <= i < old.len() ==> #[trigger] new[i] == (Archive {
            task: Task { id: new[i].task.id, ..old[i].task },
            ..old[i]
        })
}

/// The contents of a sequence of strings.
pub open spec fn views(v: Seq<String>) -> Seq<Seq<char>> {
    Seq::new(v.len(), |i: int| v[i]@)
}

/// `s` without any occurrence of `x`, in order.
pub open spec fn without(s: Seq<Seq<char>>, x: Seq<char>) -> Seq<Seq<char>>
    decreases s.len(),
{
    if s.len() == 0 {
        s
    } else {
        let r = without(s.drop_last(), x);
        if s.last() == x {
            r
        } else {
            r.push(s.last())
        }
    }
}

/// Some task in a column of `d` carries the label `label`.
pub open spec fn label_is_active(d: StoredData, label: Seq<char>) -> bool {
    exists|i: int, j: int, k: int|
        0 <= i < d.columns@.len() && 0 <= j < d.columns@[i].tasks@.len() && 0 <= k
            < d.columns@[i].tasks@[j].labels@.len() && #[trigger] d.columns@[i].tasks@[j].labels@[k]@
            == label
}

/// The labels of `s` that some task carries, each at its first occurrence.
pub open spec fn normalized_recency(s: Seq<Seq<char>>, d: StoredData) -> Seq<Seq<char>>
    decreases s.len(),
{
    if s.len() == 0 {
        s
    } else {
        let r = normalized_recency(s.drop_last(), d);
        if label_is_active(d, s.last()) && !r.contains(s.last()) {
            r.push(s.last())
        } else {
            r
        }
    }
}

proof fn lemma_column_task_ids_take(cols: Seq<Column>, i: int)
    requires
        0 <= i < cols.len(),
    ensures
        column_task_ids(cols.take(i + 1)) == column_task_ids(cols.take(i)) + task_ids_of(
            cols[i].tasks@,
        ),
{
    assert(cols.take(i + 1).drop_last() =~= cols.take(i));
}

proof fn lemma_column_task_ids_congruent(a: Seq<Column>, b: Seq<Column>)
    requires
        a.len() == b.len(),
        forall|i: int| 0 <= i < a.len() ==> task_ids_of(#[trigger] a[i].tasks@) == task_ids_of(b[i].tasks@),
    ensures
        column_task_ids(a) == column_task_ids(b),
    decreases a.len(),
{
    if a.len() > 0 {
        lemma_column_task_ids_congruent(a.drop_last(), b.drop_last());
        assert(task_ids_of(a.last().tasks@) == task_ids_of(b.last().tasks@));
    }
}

impl StoredData {
    /// Hands out the next task identifier.
    pub fn allocate_task_id(&mut self) -> (r: Result<i64, String>)
        ensures
            old(self).next_task_id < i64::MAX ==> r == Ok::<i64, String>(old(self).next_task_id)
                && *final(self) == (StoredData {
                next_task_id: (old(self).next_task_id + 1) as i64,
                ..*old(self)
            }),
            old(self).next_task_id == i64::MAX ==> (r matches Err(e) && e@ == "Task ID range exhausted"@)
                && *final(self) == *old(self),
    {
        let id = self.next_task_id;
        if id == i64::MAX {
            return Err(String::from_str("Task ID range exhausted"));
        }
        self.next_task_id = id + 1;
        Ok(id)
    }

    /// Hands out the next column identifier.
    pub fn allocate_column_id(&mut self) -> (r: Result<i64, String>)
        ensures
            old(self).next_column_id < i64::MAX ==> r == Ok::<i64, String>(old(self).next_column_id)
                && *final(self) == (StoredData {
                next_column_id: (old(self).next_column_id + 1) as i64,
                ..*old(self)
            }),
            old(self).next_column_id == i64::MAX ==> (r matches Err(e) && e@
                == "Column ID range exhausted"@) && *final(self) == *old(self),
    {
        let id = self.next_column_id;
        if id == i64::MAX {
            return Err(String::from_str("Column ID range exhausted"));
        }
        self.next_column_id = id + 1;
        Ok(id)
    }

    /// Hands out the next template identifier.
    pub fn allocate_template_id(&mut self) -> (r: Result<i64, String>)
        ensures
            old(self).next_template_id < i64::MAX ==> r == Ok::<i64, String>(
                old(self).next_template_id,
            ) && *final(self) == (StoredData {
                next_template_id: (old(self).next_template_id + 1) as i64,
                ..*old(self)
            }),
            old(self).next_template_id == i64::MAX ==> (r matches Err(e) && e@
                == "Template ID range exhausted"@) && *final(self) == *old(self),
    {
        let id = self.next_template_id;
        if id == i64::MAX {
            return Err(String::from_str("Template ID range exhausted"));
        }
        self.next_template_id = id + 1;
        Ok(id)
    }

    /// Gives every column with a negative or repeated identifier a fresh one
    /// and moves the column counter past them. Returns whether anything
    /// changed.
    pub fn repair_column_ids(&mut self) -> (changed: bool)
        requires
            repairable(column_ids(old(self).columns@), old(self).next_column_id),
        ensures
            columns_with_ids(
                old(self).columns@,
                final(self).columns@,
                repaired_ids(column_ids(old(self).columns@), old(self).next_column_id),
            ),
            final(self).next_column_id == next_after_repair(
                column_ids(old(self).columns@),
                old(self).next_column_id,
            ),
            *final(self) == (StoredData {
                columns: final(self).columns,
                next_column_id: final(self).next_column_id,
                ..*old(self)
            }),
            changed == (repair_count(column_ids(old(self).columns@)) > 0 || old(self).next_column_id
                != final(self).next_column_id),
    {
        let n = self.columns.len();
        let mut ids: Vec<i64> = Vec::new();
        for i in 0..n
            invariant
                n == self.columns.len(),
                *self == *old(self),
                ids@ == column_ids(self.columns@).take(i as int),
        {
            ids.push(self.columns[i].id);
            assert(ids@ =~= column_ids(self.columns@).take(i + 1));
        }
        assert(ids@ =~= column_ids(self.columns@));
        let ghost before = self.columns@;
        let (next, changed) = repair_ids(&mut ids, self.next_column_id);
        for i in 0..n
            invariant
                n == self.columns.len(),
                n == before.len(),
                ids@.len() == n,
                forall|k: int| 0 <= k < i ==> #[trigger] self.columns@[k] == (Column { id: ids@[k], ..before[k] }),
                forall|k: int| i <= k < n ==> #[trigger] self.columns@[k] == before[k],
                *self == (StoredData { columns: self.columns, ..*old(self) }),
        {
            self.columns[i].id = ids[i];
        }
        self.next_column_id = next;
        changed
    }

    /// Gives every template with a negative or repeated identifier a fresh
    /// one and moves the template counter past them. Returns whether
    /// anything changed.
    pub fn repair_template_ids(&mut self) -> (changed: bool)
        requires
            repairable(template_ids(old(self).templates@), old(self).next_template_id),
        ensures
            templates_with_ids(
                old(self).templates@,
                final(self).templates@,
                repaired_ids(template_ids(old(self).templates@), old(self).next_template_id),
            ),
            final(self).next_template_id == next_after_repair(
                template_ids(old(self).templates@),
                old(self).next_template_id,
            ),
            *final(self) == (StoredData {
                templates: final(self).templates,
                next_template_id: final(self).next_template_id,
                ..*old(self)
            }),
            changed == (repair_count(template_ids(old(self).templates@)) > 0
                || old(self).next_template_id != final(self).next_template_id),
    {
        let n = self.templates.len();
        let mut ids: Vec<i64> = Vec::new();
        for i in 0..n
            invariant
                n == self.templates.len(),
                *self == *old(self),
                ids@ == template_ids(self.templates@).take(i as int),
        {
            ids.push(self.templates[i].id);
            assert(ids@ =~= template_ids(self.templates@).take(i + 1));
        }
        assert(ids@ =~= template_ids(self.templates@));
        let ghost before = self.templates@;
        let (next, changed) = repair_ids(&mut ids, self.next_template_id);
        for i in 0..n
            invariant
                n == self.templates.len(),
                n == before.len(),
                ids@.len() == n,
                forall|k: int|
                    0 <= k < i ==> #[trigger] self.templates@[k] == (TaskTemplate {
                        id: ids@[k],
                        ..before[k]
                    }),
                forall|k: int| i <= k < n ==> #[trigger] self.templates@[k] == before[k],
                *self == (StoredData { templates: self.templates, ..*old(self) }),
        {
            self.templates[i].id = ids[i];
        }
        self.next_template_id = next;
        changed
    }

    /// Gives every task, on the board or archived, with a negative or
    /// repeated identifier a fresh one and moves the task counter past them.
    /// Returns whether anything changed.
    pub fn repair_task_ids(&mut self) -> (changed: bool)
        requires
            repairable(all_task_ids(*old(self)), old(self).next_task_id),
        ensures
            all_task_ids(*final(self)) == repaired_ids(all_task_ids(*old(self)), old(self).next_task_id),
            columns_tasks_renumbered(old(self).columns@, final(self).columns@),
            archives_renumbered(old(self).archives@, final(self).archives@),
            final(self).next_task_id == next_after_repair(
                all_task_ids(*old(self)),
                old(self).next_task_id,
            ),
            *final(self) == (StoredData {
                columns: final(self).columns,
                archives: final(self).archives,
                next_task_id: final(self).next_task_id,
                ..*old(self)
            }),
            changed == (repair_count(all_task_ids(*old(self))) > 0 || old(self).next_task_id
                != final(self).next_task_id),
    {
        let mut ids = collect_column_task_ids(&self.columns);
        let n_col_tasks = ids.len();
        let a = self.archives.len();
        for i in 0..a
            invariant
                a == self.archives.len(),
                *self == *old(self),
                n_col_tasks == column_task_ids(self.columns@).len(),
                ids@ == column_task_ids(self.columns@) + archive_task_ids(self.archives@).take(
                    i as int,
                ),
        {
            ids.push(self.archives[i].task.id);
            assert(ids@ =~= column_task_ids(self.columns@) + archive_task_ids(self.archives@).take(
                i + 1,
            ));
        }
        assert(archive_task_ids(self.archives@).take(a as int) =~= archive_task_ids(self.archives@));
        let (next, changed) = repair_ids(&mut ids, self.next_task_id);
        let ghost new_ids = ids@;
        let total = ids.len();
        assert(new_ids.len() == n_col_tasks + a);
        write_column_task_ids(&mut self.columns, &ids);
        let ghost mid = self.archives@;
        let ghost cols_after = self.columns;
        for i in 0..a
            invariant
                a == self.archives.len(),
                a == mid.len(),
                new_ids == ids@,
                n_col_tasks + a == new_ids.len(),
                total == new_ids.len(),
                forall|k: int| 0 <= k < i ==> #[trigger] self.archives@[k] == (Archive {
                    task: Task { id: new_ids[n_col_tasks + k], ..mid[k].task },
                    ..mid[k]
                }),
                forall|k: int| i <= k < a ==> #[trigger] self.archives@[k] == mid[k],
                *self == (StoredData { archives: self.archives, columns: cols_after, ..*old(self) }),
        {
            self.archives[i].task.id = ids[n_col_tasks + i];
        }
        proof {
            assert(archive_task_ids(self.archives@) =~= new_ids.skip(n_col_tasks as int));
            assert(new_ids =~= new_ids.take(n_col_tasks as int) + new_ids.skip(n_col_tasks as int));
        }
        self.next_task_id = next;
        changed
    }
}

/// The identifiers of the tasks of all columns, column by column.
fn collect_column_task_ids(columns: &Vec<Column>) -> (ids: Vec<i64>)
    ensures
        ids@ == column_task_ids(columns@),
{
    let n = columns.len();
    let mut ids: Vec<i64> = Vec::new();
    for i in 0..n
        invariant
            n == columns.len(),
            ids@ == column_task_ids(columns@.take(i as int)),
    {
        proof {
            lemma_column_task_ids_take(columns@, i as int);
        }
        let m = columns[i].tasks.len();
        let ghost base = ids@;
        for j in 0..m
            invariant
                n == columns.len(),
                i < n,
                m == columns@[i as int].tasks@.len(),
                ids@ == base + task_ids_of(columns@[i as int].tasks@).take(j as int),
        {
            ids.push(columns[i].tasks[j].id);
            assert(ids@ =~= base + task_ids_of(columns@[i as int].tasks@).take(j + 1));
        }
        assert(task_ids_of(columns@[i as int].tasks@).take(m as int) =~= task_ids_of(
            columns@[i as int].tasks@,
        ));
    }
    assert(columns@.take(n as int) =~= columns@);
    ids
}

/// Writes `ids`, in order, as the identifiers of the tasks of all columns.
fn write_column_task_ids(columns: &mut Vec<Column>, ids: &Vec<i64>)
    requires
        column_task_ids(old(columns)@).len() <= ids@.len(),
    ensures
        column_task_ids(final(columns)@) == ids@.take(column_task_ids(old(columns)@).len() as int),
        columns_tasks_renumbered(old(columns)@, final(columns)@),
{
    let ghost before = columns@;
    let n = columns.len();
    let total = ids.len();
    let mut pos: usize = 0;
    for i in 0..n
        invariant
            n == columns.len(),
            n == before.len(),
            column_task_ids(before).len() <= ids@.len(),
            total == ids@.len(),
            pos == column_task_ids(before.take(i as int)).len(),
            column_task_ids(columns@.take(i as int)) == ids@.take(pos as int),
            forall|k: int|
                0 <= k < n ==> {
                    &&& #[trigger] columns@[k] == (Column { tasks: columns@[k].tasks, ..before[k] })
                    &&& tasks_renumbered(before[k].tasks@, columns@[k].tasks@)
                },
            forall|k: int| i <= k < n ==> #[trigger] columns@[k] == before[k],
    {
        proof {
            lemma_column_task_ids_take(columns@, i as int);
            lemma_column_task_ids_take(before, i as int);
            lemma_column_task_ids_prefix_len(before, i + 1);
        }
        let m = columns[i].tasks.len();
        let ghost at_start = columns@;
        let ghost start = pos;
        assert(column_task_ids(before.take(i + 1)).len() == start + m);
        assert(start + m <= ids@.len());
        for j in 0..m
            invariant
                n == columns.len(),
                i < n,
                m == at_start[i as int].tasks@.len(),
                at_start[i as int] == before[i as int],
                start + m <= ids@.len(),
                total == ids@.len(),
                pos == start + j,
                columns@[i as int] == (Column { tasks: columns@[i as int].tasks, ..at_start[i as int] }),
                columns@[i as int].tasks@.len() == m,
                forall|q: int| 0 <= q < j ==> #[trigger] columns@[i as int].tasks@[q] == (Task {
                    id: ids@[start + q],
                    ..at_start[i as int].tasks@[q]
                }),
                forall|q: int| j <= q < m ==> #[trigger] columns@[i as int].tasks@[q]
                    == at_start[i as int].tasks@[q],
                forall|k: int| 0 <= k < n && k != i ==> #[trigger] columns@[k] == at_start[k],
        {
            columns[i].tasks[j].id = ids[pos];
            pos = pos + 1;
        }
        proof {
            assert(task_ids_of(columns@[i as int].tasks@) =~= ids@.subrange(start as int, start + m));
            assert(columns@.take(i as int) =~= at_start.take(i as int));
            lemma_column_task_ids_take(columns@, i as int);
            assert(ids@.take(pos as int) =~= ids@.take(start as int) + ids@.subrange(
                start as int,
                start + m,
            ));
            assert forall|q: int| 0 <= q < m implies #[trigger] task_with_id(
                before[i as int].tasks@[q],
                columns@[i as int].tasks@[q],
                columns@[i as int].tasks@[q].id,
            ) by {}
        }
    }
    assert(columns@.take(n as int) =~= columns@);
    assert(before.take(n as int) =~= before);
}

proof fn lemma_column_task_ids_prefix_len(cols: Seq<Column>, i: int)
    requires
        0 <= i <= cols.len(),
    ensures
        column_task_ids(cols.take(i)).len() <= column_task_ids(cols).len(),
    decreases cols.len() - i,
{
    if i < cols.len() {
        lemma_column_task_ids_prefix_len(cols, i + 1);
        lemma_column_task_ids_take(cols, i);
    } else {
        assert(cols.take(i) =~= cols);
    }
}


proof fn lemma_without_take(s: Seq<Seq<char>>, x: Seq<char>, k: int)
    requires
        0 <= k < s.len(),
    ensures
        without(s.take(k + 1), x) == if s[k] == x {
            without(s.take(k), x)
        } else {
            without(s.take(k), x).push(s[k])
        },
{
    assert(s.take(k + 1).drop_last() =~= s.take(k));
}

proof fn lemma_normalized_take(s: Seq<Seq<char>>, d: StoredData, k: int)
    requires
        0 <= k < s.len(),
    ensures
        normalized_recency(s.take(k + 1), d) == if label_is_active(d, s[k]) && !normalized_recency(
            s.take(k),
            d,
        ).contains(s[k]) {
            normalized_recency(s.take(k), d).push(s[k])
        } else {
            normalized_recency(s.take(k), d)
        },
{
    assert(s.take(k + 1).drop_last() =~= s.take(k));
}

proof fn lemma_normalized_len(s: Seq<Seq<char>>, d: StoredData)
    ensures
        normalized_recency(s, d).len() <= s.len(),
        normalized_recency(s, d).len() == s.len() ==> normalized_recency(s, d) == s,
    decreases s.len(),
{
    if s.len() > 0 {
        lemma_normalized_len(s.drop_last(), d);
        if normalized_recency(s, d).len() == s.len() {
            assert(s =~= s.drop_last().push(s.last()));
        }
    }
}

/// Whether some task in `columns` carries a label equal to `label`.
fn label_in_columns(columns: &Vec<Column>, label: &String) -> (r: bool)
    ensures
        r == (exists|i: int, j: int, k: int|
            0 <= i < columns@.len() && 0 <= j < columns@[i].tasks@.len() && 0 <= k
                < columns@[i].tasks@[j].labels@.len() && #[trigger] columns@[i].tasks@[j].labels@[k]@
                == label@),
{
    let n = columns.len();
    for i in 0..n
        invariant
            n == columns.len(),
            forall|a: int, j: int, k: int|
                0 <= a < i && 0 <= j < columns@[a].tasks@.len() && 0 <= k
                    < columns@[a].tasks@[j].labels@.len() ==> #[trigger] columns@[a].tasks@[j].labels@[k]@
                    != label@,
    {
        let m = columns[i].tasks.len();
        for j in 0..m
            invariant
                n == columns.len(),
                i < n,
                m == columns@[i as int].tasks@.len(),
                forall|a: int, b: int, k: int|
                    0 <= a < i && 0 <= b < columns@[a].tasks@.len() && 0 <= k
                        < columns@[a].tasks@[b].labels@.len() ==> #[trigger] columns@[a].tasks@[b].labels@[k]@
                        != label@,
                forall|b: int, k: int|
                    0 <= b < j && 0 <= k < columns@[i as int].tasks@[b].labels@.len()
                        ==> #[trigger] columns@[i as int].tasks@[b].labels@[k]@ != label@,
        {
            let q = columns[i].tasks[j].labels.len();
            for k in 0..q
                invariant
                    n == columns.len(),
                    i < n,
                    j < columns@[i as int].tasks@.len(),
                    q == columns@[i as int].tasks@[j as int].labels@.len(),
                    forall|c: int| 0 <= c < k ==> #[trigger] columns@[i as int].tasks@[j as int].labels@[c]@
                        != label@,
            {
                if columns[i].tasks[j].labels[k] == *label {
                    return true;
                }
            }
        }
    }
    false
}

impl StoredData {
    /// Makes `label` the most recently used label.
    pub fn touch_label(&mut self, label: String)
        ensures
            views(final(self).label_recency@) == seq![label@] + without(
                views(old(self).label_recency@),
                label@,
            ),
            *final(self) == (StoredData { label_recency: final(self).label_recency, ..*old(self) }),
    {
        let ghost orig = views(self.label_recency@);
        let mut i: usize = 0;
        let mut k: usize = 0;
        let n = self.label_recency.len();
        while i < self.label_recency.len()
            invariant
                n == orig.len(),
                k <= n,
                i == without(orig.take(k as int), label@).len(),
                i + (n - k) == self.label_recency@.len(),
                views(self.label_recency@) == without(orig.take(k as int), label@) + orig.skip(
                    k as int,
                ),
                *self == (StoredData { label_recency: self.label_recency, ..*old(self) }),
            decreases self.label_recency@.len() - i,
        {
            proof {
                lemma_without_take(orig, label@, k as int);
                assert(views(self.label_recency@)[i as int] == orig[k as int]);
            }
            if self.label_recency[i] == label {
                let ghost before = self.label_recency@;
                self.label_recency.remove(i);
                proof {
                    assert(views(self.label_recency@) =~= views(before).remove(i as int));
                    assert(views(before).remove(i as int) =~= without(orig.take(k + 1), label@)
                        + orig.skip(k + 1));
                }
            } else {
                proof {
                    assert(views(self.label_recency@) =~= without(orig.take(k + 1), label@)
                        + orig.skip(k + 1));
                }
                i = i + 1;
            }
            k = k + 1;
        }
        assert(orig.take(n as int) =~= orig);
        assert(orig.skip(n as int) =~= Seq::<Seq<char>>::empty());
        let ghost label_view = label@;
        self.label_recency.insert(0, label);
        assert(views(self.label_recency@) =~= seq![label_view] + without(orig, label_view));
    }

    /// Drops from the label recency every label that no task carries, and
    /// every repetition. Returns whether anything was dropped.
    pub fn normalize_label_recency(&mut self) -> (changed: bool)
        ensures
            views(final(self).label_recency@) == normalized_recency(
                views(old(self).label_recency@),
                *old(self),
            ),
            *final(self) == (StoredData { label_recency: final(self).label_recency, ..*old(self) }),
            changed == (views(final(self).label_recency@) != views(old(self).label_recency@)),
    {
        let ghost orig = views(self.label_recency@);
        let ghost d = *self;
        let n = self.label_recency.len();
        let mut i: usize = 0;
        let mut k: usize = 0;
        while i < self.label_recency.len()
            invariant
                n == orig.len(),
                k <= n,
                i == normalized_recency(orig.take(k as int), d).len(),
                i + (n - k) == self.label_recency@.len(),
                views(self.label_recency@) == normalized_recency(orig.take(k as int), d) + orig.skip(
                    k as int,
                ),
                *self == (StoredData { label_recency: self.label_recency, ..d }),
            decreases self.label_recency@.len() - i,
        {
            proof {
                lemma_normalized_take(orig, d, k as int);
                assert(views(self.label_recency@)[i as int] == orig[k as int]);
            }
            let active = label_in_columns(&self.columns, &self.label_recency[i]);
            let mut seen = false;
            let mut p: usize = 0;
            while p < i
                invariant
                    i < self.label_recency@.len(),
                    k < orig.len(),
                    p <= i,
                    views(self.label_recency@).take(i as int) == normalized_recency(
                        orig.take(k as int),
                        d,
                    ),
                    seen == (exists|q: int| 0 <= q < p && #[trigger] views(self.label_recency@)[q]
                        == orig[k as int]),
                    views(self.label_recency@)[i as int] == orig[k as int],
                decreases i - p,
            {
                if self.label_recency[p] == self.label_recency[i] {
                    seen = true;
                }
                proof {
                    let t = views(self.label_recency@);
                    assert(t[p as int] == self.label_recency@[p as int]@);
                    assert(t[i as int] == self.label_recency@[i as int]@);
                }
                p = p + 1;
            }
            proof {
                let t = views(self.label_recency@);
                if seen {
                    let q = choose|q: int| 0 <= q < i && #[trigger] t[q] == orig[k as int];
                    assert(t.take(i as int)[q] == orig[k as int]);
                } else {
                    assert forall|q: int| 0 <= q < t.take(i as int).len() implies t.take(i as int)[q]
                        != orig[k as int] by {
                        assert(t.take(i as int)[q] == t[q]);
                    }
                }
                assert(views(self.label_recency@).take(i as int) =~= normalized_recency(
                    orig.take(k as int),
                    d,
                ));
            }
            if active && !seen {
                proof {
                    assert(views(self.label_recency@) =~= normalized_recency(orig.take(k + 1), d)
                        + orig.skip(k + 1));
                }
                i = i + 1;
            } else {
                let ghost before = self.label_recency@;
                self.label_recency.remove(i);
                proof {
                    assert(views(self.label_recency@) =~= views(before).remove(i as int));
                    assert(views(before).remove(i as int) =~= normalized_recency(orig.take(k + 1), d)
                        + orig.skip(k + 1));
                }
            }
            k = k + 1;
        }
        assert(orig.take(n as int) =~= orig);
        assert(orig.skip(n as int) =~= Seq::<Seq<char>>::empty());
        assert(views(self.label_recency@) =~= normalized_recency(orig, d));
        proof {
            lemma_normalized_len(orig, d);
        }
        self.label_recency.len() != n
    }
}


/// The message of a refused migration of data written by a newer version.
pub open spec fn schema_error_message(version: u32) -> Seq<char> {
    "Data schema version "@ + nat_decimal(version as nat)
        + " is newer than this application supports ("@ + nat_decimal(
        CURRENT_SCHEMA_VERSION as nat,
    ) + ")."@
}

/// Fresh identifiers for columns, tasks and templates can be handed out
/// without running past `i64::MAX` (see `repairable`).
pub open spec fn migratable(d: StoredData) -> bool {
    d.schema_version <= CURRENT_SCHEMA_VERSION ==> {
        &&& repairable(column_ids(d.columns@), d.next_column_id)
        &&& repairable(all_task_ids(d), d.next_task_id)
        &&& repairable(template_ids(d.templates@), d.next_template_id)
    }
}

/// `m` is `d` after migration: every identifier repaired, the label recency
/// normalized, and the schema version current.
pub open spec fn migrated(d: StoredData, m: StoredData) -> bool {
    let col_ids = repaired_ids(column_ids(d.columns@), d.next_column_id);
    &&& m.columns@.len() == d.columns@.len()
    &&& forall|i: int|
        0 <= i < d.columns@.len() ==> {
            &&& #[trigger] m.columns@[i] == (Column {
                id: col_ids[i],
                tasks: m.columns@[i].tasks,
                ..d.columns@[i]
            })
            &&& tasks_renumbered(d.columns@[i].tasks@, m.columns@[i].tasks@)
        }
    &&& archives_renumbered(d.archives@, m.archives@)
    &&& all_task_ids(m) == repaired_ids(all_task_ids(d), d.next_task_id)
    &&& templates_with_ids(
        d.templates@,
        m.templates@,
        repaired_ids(template_ids(d.templates@), d.next_template_id),
    )
    &&& m.next_column_id == next_after_repair(column_ids(d.columns@), d.next_column_id)
    &&& m.next_task_id == next_after_repair(all_task_ids(d), d.next_task_id)
    &&& m.next_template_id == next_after_repair(template_ids(d.templates@), d.next_template_id)
    &&& views(m.label_recency@) == normalized_recency(views(d.label_recency@), d)
    &&& m.schema_version == CURRENT_SCHEMA_VERSION
    &&& m.settings == d.settings
}

/// Migration changed something: the version, an identifier, a counter or
/// the label recency.
pub open spec fn migration_changes(d: StoredData) -> bool {
    ||| d.schema_version != CURRENT_SCHEMA_VERSION
    ||| repair_count(column_ids(d.columns@)) > 0
    ||| d.next_column_id != next_after_repair(column_ids(d.columns@), d.next_column_id)
    ||| repair_count(all_task_ids(d)) > 0
    ||| d.next_task_id != next_after_repair(all_task_ids(d), d.next_task_id)
    ||| repair_count(template_ids(d.templates@)) > 0
    ||| d.next_template_id != next_after_repair(template_ids(d.templates@), d.next_template_id)
    ||| normalized_recency(views(d.label_recency@), d) != views(d.label_recency@)
}

proof fn lemma_normalized_congruent(s: Seq<Seq<char>>, a: StoredData, b: StoredData)
    requires
        forall|l: Seq<char>| label_is_active(a, l) == label_is_active(b, l),
    ensures
        normalized_recency(s, a) == normalized_recency(s, b),
    decreases s.len(),
{
    if s.len() > 0 {
        lemma_normalized_congruent(s.drop_last(), a, b);
        assert(label_is_active(a, s.last()) == label_is_active(b, s.last()));
    }
}

proof fn lemma_labels_kept(a: StoredData, b: StoredData)
    requires
        b.columns@.len() == a.columns@.len(),
        forall|i: int| 0 <= i < a.columns@.len() ==> tasks_renumbered(#[trigger] a.columns@[i].tasks@, b.columns@[i].tasks@),
    ensures
        forall|l: Seq<char>| label_is_active(a, l) == label_is_active(b, l),
{
    assert forall|l: Seq<char>| label_is_active(a, l) == label_is_active(b, l) by {
        if label_is_active(a, l) {
            let (i, j, k) = choose|i: int, j: int, k: int|
                0 <= i < a.columns@.len() && 0 <= j < a.columns@[i].tasks@.len() && 0 <= k
                    < a.columns@[i].tasks@[j].labels@.len() && #[trigger] a.columns@[i].tasks@[j].labels@[k]@
                    == l;
            assert(tasks_renumbered(a.columns@[i].tasks@, b.columns@[i].tasks@));
            assert(task_with_id(a.columns@[i].tasks@[j], b.columns@[i].tasks@[j], b.columns@[i].tasks@[j].id));
            assert(b.columns@[i].tasks@[j].labels@[k]@ == l);
        }
        if label_is_active(b, l) {
            let (i, j, k) = choose|i: int, j: int, k: int|
                0 <= i < b.columns@.len() && 0 <= j < b.columns@[i].tasks@.len() && 0 <= k
                    < b.columns@[i].tasks@[j].labels@.len() && #[trigger] b.columns@[i].tasks@[j].labels@[k]@
                    == l;
            assert(tasks_renumbered(a.columns@[i].tasks@, b.columns@[i].tasks@));
            assert(task_with_id(a.columns@[i].tasks@[j], b.columns@[i].tasks@[j], b.columns@[i].tasks@[j].id));
            assert(a.columns@[i].tasks@[j].labels@[k]@ == l);
        }
    }
}

proof fn lemma_normalized_is_clean(s: Seq<Seq<char>>, d: StoredData)
    ensures
        forall|i: int| 0 <= i < normalized_recency(s, d).len() ==> label_is_active(d, #[trigger] normalized_recency(s, d)[i]),
        forall|i: int, j: int|
            0 <= i < j < normalized_recency(s, d).len() ==> #[trigger] normalized_recency(s, d)[i]
                != #[trigger] normalized_recency(s, d)[j],
    decreases s.len(),
{
    if s.len() > 0 {
        lemma_normalized_is_clean(s.drop_last(), d);
        let r = normalized_recency(s.drop_last(), d);
        if label_is_active(d, s.last()) && !r.contains(s.last()) {
            let t = r.push(s.last());
            assert forall|i: int, j: int| 0 <= i < j < t.len() implies #[trigger] t[i] != #[trigger] t[j] by {
                if j == r.len() {
                    assert(r[i] == t[i]);
                }
            }
        }
    }
}

proof fn lemma_clean_recency_is_normal(t: Seq<Seq<char>>, d: StoredData)
    requires
        forall|i: int| 0 <= i < t.len() ==> label_is_active(d, #[trigger] t[i]),
        forall|i: int, j: int| 0 <= i < j < t.len() ==> #[trigger] t[i] != #[trigger] t[j],
    ensures
        normalized_recency(t, d) == t,
    decreases t.len(),
{
    if t.len() > 0 {
        let p = t.drop_last();
        assert forall|i: int| 0 <= i < p.len() implies label_is_active(d, #[trigger] p[i]) by {
            assert(p[i] == t[i]);
        }
        assert forall|i: int, j: int| 0 <= i < j < p.len() implies #[trigger] p[i] != #[trigger] p[j] by {
            assert(p[i] == t[i] && p[j] == t[j]);
        }
        lemma_clean_recency_is_normal(p, d);
        assert(label_is_active(d, t[t.len() - 1]));
        if p.contains(t.last()) {
            let k = choose|k: int| 0 <= k < p.len() && p[k] == t.last();
            assert(t[k] != t[t.len() - 1]);
        }
        assert(p.push(t.last()) =~= t);
    }
}

/// Migrating data that was just migrated changes nothing: the data can be
/// migrated again, that migration reports no change, and the data itself is
/// what it yields.
pub proof fn lemma_migration_is_idempotent(d: StoredData, m: StoredData)
    requires
        migratable(d),
        d.schema_version <= CURRENT_SCHEMA_VERSION,
        migrated(d, m),
    ensures
        migratable(m),
        !migration_changes(m),
        migrated(m, m),
{
    let cols = column_ids(d.columns@);
    let tasks = all_task_ids(d);
    let temps = template_ids(d.templates@);
    lemma_repair_is_idempotent(cols, d.next_column_id);
    lemma_repair_is_idempotent(tasks, d.next_task_id);
    lemma_repair_is_idempotent(temps, d.next_template_id);
    assert forall|i: int| 0 <= i < d.columns@.len() implies #[trigger] column_ids(m.columns@)[i]
        == repaired_ids(cols, d.next_column_id)[i] by {
        assert(m.columns@[i].id == repaired_ids(cols, d.next_column_id)[i]);
    }
    assert(column_ids(m.columns@) =~= repaired_ids(cols, d.next_column_id));
    assert(template_ids(m.templates@) =~= repaired_ids(temps, d.next_template_id));
    lemma_labels_kept(d, m);
    let t = views(m.label_recency@);
    lemma_normalized_congruent(t, m, d);
    lemma_normalized_is_clean(views(d.label_recency@), d);
    lemma_clean_recency_is_normal(t, d);
    assert forall|i: int| 0 <= i < m.columns@.len() implies tasks_renumbered(
        #[trigger] m.columns@[i].tasks@,
        m.columns@[i].tasks@,
    ) by {
        assert forall|j: int| 0 <= j < m.columns@[i].tasks@.len() implies #[trigger] task_with_id(
            m.columns@[i].tasks@[j],
            m.columns@[i].tasks@[j],
            m.columns@[i].tasks@[j].id,
        ) by {
        }
    }
    assert forall|i: int| 0 <= i < m.columns@.len() implies #[trigger] m.columns@[i] == (Column {
        id: repaired_ids(column_ids(m.columns@), m.next_column_id)[i],
        tasks: m.columns@[i].tasks,
        ..m.columns@[i]
    }) by {
        assert(repaired_ids(column_ids(m.columns@), m.next_column_id)[i] == column_ids(m.columns@)[i]);
    }
    assert forall|i: int| 0 <= i < m.templates@.len() implies #[trigger] m.templates@[i] == (TaskTemplate {
        id: repaired_ids(template_ids(m.templates@), m.next_template_id)[i],
        ..m.templates@[i]
    }) by {
        assert(repaired_ids(template_ids(m.templates@), m.next_template_id)[i] == template_ids(m.templates@)[i]);
    }
}

impl StoredData {
    /// Brings data written by this or an older version up to the current
    /// schema, and says whether it changed. Data from a newer version is
    /// refused.
    pub fn migrate(self) -> (r: Result<(StoredData, bool), String>)
        requires
            migratable(self),
        ensures
            self.schema_version > CURRENT_SCHEMA_VERSION ==> (r matches Err(e) && e@
                == schema_error_message(self.schema_version)),
            self.schema_version <= CURRENT_SCHEMA_VERSION ==> (r matches Ok((m, changed)) && migrated(
                self,
                m,
            ) && changed == migration_changes(self)),
    {
        let mut data = self;
        if data.schema_version > CURRENT_SCHEMA_VERSION {
            let mut message = String::from_str("Data schema version ");
            push_u128_decimal(&mut message, data.schema_version as u128);
            message.append(" is newer than this application supports (");
            push_u128_decimal(&mut message, CURRENT_SCHEMA_VERSION as u128);
            message.append(").");
            proof {
                reveal_strlit("Data schema version ");
                reveal_strlit(" is newer than this application supports (");
                reveal_strlit(").");
            }
            return Err(message);
        }
        let ghost d0 = data;
        let version_changed = data.schema_version != CURRENT_SCHEMA_VERSION;
        let column_ids_changed = data.repair_column_ids();
        let ghost d1 = data;
        proof {
            lemma_column_task_ids_congruent(d0.columns@, d1.columns@);
            assert(all_task_ids(d1) == all_task_ids(d0));
        }
        let task_ids_changed = data.repair_task_ids();
        let ghost d2 = data;
        let template_ids_changed = data.repair_template_ids();
        let ghost d3 = data;
        proof {
            assert forall|i: int| 0 <= i < d0.columns@.len() implies tasks_renumbered(
                #[trigger] d0.columns@[i].tasks@,
                d3.columns@[i].tasks@,
            ) by {
                assert(d1.columns@[i].tasks == d0.columns@[i].tasks);
                assert(d3.columns@[i] == d2.columns@[i]);
                assert(tasks_renumbered(d1.columns@[i].tasks@, d2.columns@[i].tasks@));
            }
            lemma_labels_kept(d0, d3);
            lemma_normalized_congruent(views(d0.label_recency@), d0, d3);
        }
        let label_recency_changed = data.normalize_label_recency();
        let changed = version_changed || column_ids_changed || task_ids_changed
            || template_ids_changed || label_recency_changed;
        data.schema_version = CURRENT_SCHEMA_VERSION;
        proof {
            assert forall|i: int| 0 <= i < d0.columns@.len() implies {
                &&& #[trigger] data.columns@[i] == (Column {
                    id: repaired_ids(column_ids(d0.columns@), d0.next_column_id)[i],
                    tasks: data.columns@[i].tasks,
                    ..d0.columns@[i]
                })
                &&& tasks_renumbered(d0.columns@[i].tasks@, data.columns@[i].tasks@)
            } by {
                assert(d2.columns@[i] == (Column { tasks: d2.columns@[i].tasks, ..d1.columns@[i] }));
            }
        }
        Ok((data, changed))
    }
}


/// Whether the identifiers of these columns, archived tasks and templates
/// can be repaired from the counters `next_column`, `next_task` and
/// `next_template`.
pub fn parts_repairable(
    columns: &Vec<Column>,
    archives: &Vec<Archive>,
    templates: &Vec<TaskTemplate>,
    next_column: i64,
    next_task: i64,
    next_template: i64,
) -> (r: bool)
    ensures
        r == (repairable(column_ids(columns@), next_column) && repairable(
            column_task_ids(columns@) + archive_task_ids(archives@),
            next_task,
        ) && repairable(template_ids(templates@), next_template)),
{
    let n = columns.len();
    let mut column_list: Vec<i64> = Vec::new();
    for i in 0..n
        invariant
            n == columns@.len(),
            column_list@ == column_ids(columns@).take(i as int),
    {
        column_list.push(columns[i].id);
        assert(column_list@ =~= column_ids(columns@).take(i + 1));
    }
    assert(column_list@ =~= column_ids(columns@));
    let mut tasks = collect_column_task_ids(columns);
    let ghost base = tasks@;
    let a = archives.len();
    for i in 0..a
        invariant
            a == archives@.len(),
            tasks@ == base + archive_task_ids(archives@).take(i as int),
    {
        tasks.push(archives[i].task.id);
        assert(tasks@ =~= base + archive_task_ids(archives@).take(i + 1));
    }
    assert(tasks@ =~= column_task_ids(columns@) + archive_task_ids(archives@));
    let m = templates.len();
    let mut template_list: Vec<i64> = Vec::new();
    for i in 0..m
        invariant
            m == templates@.len(),
            template_list@ == template_ids(templates@).take(i as int),
    {
        template_list.push(templates[i].id);
        assert(template_list@ =~= template_ids(templates@).take(i + 1));
    }
    assert(template_list@ =~= template_ids(templates@));
    ids_repairable(&column_list, next_column) && ids_repairable(&tasks, next_task) && ids_repairable(
        &template_list,
        next_template,
    )
}

/// Every kind of identifier of `d` can be repaired from its counter.
pub open spec fn ids_repairable_in(d: StoredData) -> bool {
    &&& repairable(column_ids(d.columns@), d.next_column_id)
    &&& repairable(all_task_ids(d), d.next_task_id)
    &&& repairable(template_ids(d.templates@), d.next_template_id)
}

/// `m` is `d` with every identifier repaired and all else kept.
pub open spec fn ids_repaired(d: StoredData, m: StoredData) -> bool {
    let col_ids = repaired_ids(column_ids(d.columns@), d.next_column_id);
    &&& m.columns@.len() == d.columns@.len()
    &&& forall|i: int|
        0 <= i < d.columns@.len() ==> {
            &&& #[trigger] m.columns@[i] == (Column { id: col_ids[i], tasks: m.columns@[i].tasks, ..d.columns@[i] })
            &&& tasks_renumbered(d.columns@[i].tasks@, m.columns@[i].tasks@)
        }
    &&& archives_renumbered(d.archives@, m.archives@)
    &&& all_task_ids(m) == repaired_ids(all_task_ids(d), d.next_task_id)
    &&& templates_with_ids(d.templates@, m.templates@, repaired_ids(template_ids(d.templates@), d.next_template_id))
    &&& m.next_column_id == next_after_repair(column_ids(d.columns@), d.next_column_id)
    &&& m.next_task_id == next_after_repair(all_task_ids(d), d.next_task_id)
    &&& m.next_template_id == next_after_repair(template_ids(d.templates@), d.next_template_id)
    &&& m.label_recency == d.label_recency
    &&& m.schema_version == d.schema_version
    &&& m.settings == d.settings
}

impl StoredData {
    /// Replaces every negative or repeated column, task and template
    /// identifier by a fresh one.
    pub fn repair_all_ids(&mut self)
        requires
            ids_repairable_in(*old(self)),
        ensures
            ids_repaired(*old(self), *final(self)),
    {
        let ghost d0 = *self;
        self.repair_column_ids();
        let ghost d1 = *self;
        proof {
            lemma_column_task_ids_congruent(d0.columns@, d1.columns@);
            assert(all_task_ids(d1) == all_task_ids(d0));
        }
        self.repair_task_ids();
        let ghost d2 = *self;
        self.repair_template_ids();
        proof {
            assert forall|i: int| 0 <= i < d0.columns@.len() implies {
                &&& #[trigger] self.columns@[i] == (Column {
                    id: repaired_ids(column_ids(d0.columns@), d0.next_column_id)[i],
                    tasks: self.columns@[i].tasks,
                    ..d0.columns@[i]
                })
                &&& tasks_renumbered(d0.columns@[i].tasks@, self.columns@[i].tasks@)
            } by {
                assert(d1.columns@[i].tasks == d0.columns@[i].tasks);
                assert(d2.columns@[i] == (Column { tasks: d2.columns@[i].tasks, ..d1.columns@[i] }));
                assert(tasks_renumbered(d1.columns@[i].tasks@, d2.columns@[i].tasks@));
            }
        }
    }

    /// Whether every kind of identifier can be repaired from its counter.
    pub fn can_repair_ids(&self) -> (r: bool)
        ensures
            r == ids_repairable_in(*self),
    {
        parts_repairable(
            &self.columns,
            &self.archives,
            &self.templates,
            self.next_column_id,
            self.next_task_id,
            self.next_template_id,
        )
    }

    /// Whether `migrate` can run on this data: see [`migratable`].
    pub fn can_migrate(&self) -> (r: bool)
        ensures
            r == migratable(*self),
    {
        self.schema_version > CURRENT_SCHEMA_VERSION || self.can_repair_ids()
    }
}
} // verus!
