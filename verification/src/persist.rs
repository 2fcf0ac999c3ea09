//! What saving a change of a board writes: the rows that go, the rows that
//! are written, and the sort positions that keep unmoved rows untouched.
use vstd::prelude::*;
use vstd::string::StringExecFns;
use std::collections::HashMap;
use crate::board::{column_at, column_index, has_column, has_task, lemma_first_column_unique};
use crate::stored::{column_ids, task_ids_of};
use crate::keyed::{changed_entries, entry_changed, has_key, last_of_key, removed_keys};
use crate::equality::{archive_view, archives_equal, template_contents, templates_equal, task_equal};
use crate::models::{Archive, Column, Task, TaskTemplate};
use crate::models::{BoardRole, StoredData};
use crate::positions::{
    anchors_valid, assign_sparse_positions, assignment_ok, evenly_spaced, fill_fits, filled, fresh_positions,
    map_of, result_view,
};

verus! {

broadcast use vstd::std_specs::hash::group_hash_axioms;

/// How many rows of each kind a save changed.
pub struct PersistStats {
    pub columns_changed: usize,
    pub tasks_changed: usize,
    pub archives_changed: usize,
    pub templates_changed: usize,
    pub metadata_changed: usize,
}

impl Default for PersistStats {
    fn default() -> (r: Self)
        ensures
            r.columns_changed == 0 && r.tasks_changed == 0 && r.archives_changed == 0,
            r.templates_changed == 0 && r.metadata_changed == 0,
    {
        PersistStats {
            columns_changed: 0,
            tasks_changed: 0,
            archives_changed: 0,
            templates_changed: 0,
            metadata_changed: 0,
        }
    }
}

/// Task `t` of column `c` is the last task with identifier `id`, going
/// column by column.
pub open spec fn last_location(d: StoredData, id: i64, c: int, t: int) -> bool {
    &&& 0 <= c < d.columns@.len()
    &&& 0 <= t < d.columns@[c].tasks@.len()
    &&& d.columns@[c].tasks@[t].id == id
    &&& forall|k: int| t < k < d.columns@[c].tasks@.len() ==> #[trigger] d.columns@[c].tasks@[k].id != id
    &&& forall|c2: int, k: int|
        c < c2 < d.columns@.len() && 0 <= k < d.columns@[c2].tasks@.len() ==> #[trigger] d.columns@[c2].tasks@[k].id
            != id
}

/// Where each task of a board is: by identifier, its column's identifier
/// and its column and task indices; a repeated identifier maps to its last
/// task.
pub fn task_locations(data: &StoredData) -> (r: HashMap<i64, (i64, usize, usize)>)
    ensures
        forall|id: i64| r@.contains_key(id) <==> has_task(*data, id),
        forall|id: i64|
            #[trigger] r@.contains_key(id) ==> last_location(*data, id, r@[id].1 as int, r@[id].2 as int)
                && r@[id].0 == data.columns@[r@[id].1 as int].id,
{
    let mut r: HashMap<i64, (i64, usize, usize)> = HashMap::new();
    let n = data.columns.len();
    for c in 0..n
        invariant
            n == data.columns@.len(),
            forall|id: i64|
                r@.contains_key(id) <==> exists|c2: int, k: int|
                    0 <= c2 < c && 0 <= k < data.columns@[c2].tasks@.len() && #[trigger] data.columns@[c2].tasks@[k].id
                        == id,
            forall|id: i64|
                #[trigger] r@.contains_key(id) ==> {
                    let (cid, ci, ti) = r@[id];
                    &&& ci < c
                    &&& ti < data.columns@[ci as int].tasks@.len()
                    &&& data.columns@[ci as int].tasks@[ti as int].id == id
                    &&& cid == data.columns@[ci as int].id
                    &&& forall|k: int|
                        ti < k < data.columns@[ci as int].tasks@.len() ==> #[trigger] data.columns@[ci as int].tasks@[k].id
                            != id
                    &&& forall|c2: int, k: int|
                        ci < c2 < c && 0 <= k < data.columns@[c2].tasks@.len() ==> #[trigger] data.columns@[c2].tasks@[k].id
                            != id
                },
    {
        let column_id = data.columns[c].id;
        let m = data.columns[c].tasks.len();
        for t in 0..m
            invariant
                n == data.columns@.len(),
                c < n,
                m == data.columns@[c as int].tasks@.len(),
                column_id == data.columns@[c as int].id,
                forall|id: i64|
                    r@.contains_key(id) <==> (exists|c2: int, k: int|
                        0 <= c2 < c && 0 <= k < data.columns@[c2].tasks@.len()
                            && #[trigger] data.columns@[c2].tasks@[k].id == id) || (exists|k: int|
                        0 <= k < t && #[trigger] data.columns@[c as int].tasks@[k].id == id),
                forall|id: i64|
                    #[trigger] r@.contains_key(id) ==> {
                        let (cid, ci, ti) = r@[id];
                        &&& ci <= c
                        &&& ti < data.columns@[ci as int].tasks@.len()
                        &&& (ci == c ==> ti < t)
                        &&& data.columns@[ci as int].tasks@[ti as int].id == id
                        &&& cid == data.columns@[ci as int].id
                        &&& forall|k: int|
                            ti < k < (if ci == c {
                                t as int
                            } else {
                                data.columns@[ci as int].tasks@.len() as int
                            }) ==> #[trigger] data.columns@[ci as int].tasks@[k].id != id
                        &&& forall|c2: int, k: int|
                            ci < c2 < c && 0 <= k < data.columns@[c2].tasks@.len() ==> #[trigger] data.columns@[c2].tasks@[k].id
                                != id
                        &&& ci < c ==> forall|k: int| 0 <= k < t ==> #[trigger] data.columns@[c as int].tasks@[k].id != id
                    },
        {
            let id = data.columns[c].tasks[t].id;
            r.insert(id, (column_id, c, t));
            proof {
                assert forall|x: i64|
                    r@.contains_key(x) <==> (exists|c2: int, k: int|
                        0 <= c2 < c && 0 <= k < data.columns@[c2].tasks@.len()
                            && #[trigger] data.columns@[c2].tasks@[k].id == x) || (exists|k: int|
                        0 <= k < t + 1 && #[trigger] data.columns@[c as int].tasks@[k].id == x) by {
                    if x == id {
                        assert(data.columns@[c as int].tasks@[t as int].id == x);
                    }
                }
            }
        }
        proof {
            assert forall|x: i64|
                r@.contains_key(x) <==> exists|c2: int, k: int|
                    0 <= c2 < c + 1 && 0 <= k < data.columns@[c2].tasks@.len() && #[trigger] data.columns@[c2].tasks@[k].id
                        == x by {
                if exists|k: int| 0 <= k < m && #[trigger] data.columns@[c as int].tasks@[k].id == x {
                    let k = choose|k: int| 0 <= k < m && #[trigger] data.columns@[c as int].tasks@[k].id == x;
                    assert(data.columns@[c as int].tasks@[k].id == x);
                }
                if exists|c2: int, k: int|
                    0 <= c2 < c + 1 && 0 <= k < data.columns@[c2].tasks@.len() && #[trigger] data.columns@[c2].tasks@[k].id
                        == x {
                    let (c2, k) = choose|c2: int, k: int|
                        0 <= c2 < c + 1 && 0 <= k < data.columns@[c2].tasks@.len()
                            && #[trigger] data.columns@[c2].tasks@[k].id == x;
                    if c2 == c {
                        assert(data.columns@[c as int].tasks@[k].id == x);
                    } else {
                        assert(data.columns@[c2].tasks@[k].id == x);
                    }
                }
            }
        }
    }
    r
}


/// Column `i` of `cols` is the last column with its identifier.
pub open spec fn last_of_its_id(cols: Seq<Column>, i: int) -> bool {
    0 <= i < cols.len() && forall|k: int| i < k < cols.len() ==> #[trigger] cols[k].id != cols[i].id
}

/// The index of the last column of `cols` with identifier `id`.
pub open spec fn last_column_index(cols: Seq<Column>, id: i64) -> Option<int>
    decreases cols.len(),
{
    if cols.len() == 0 {
        None
    } else if cols.last().id == id {
        Some(cols.len() - 1)
    } else {
        last_column_index(cols.drop_last(), id)
    }
}

/// Column `i` of `after` has to be written: it is new, it moved, or its
/// name, colour or order changed.
pub open spec fn column_changed(
    before: Seq<Column>,
    after: Seq<Column>,
    old_positions: Map<i64, i64>,
    i: int,
    position: i64,
) -> bool {
    let c = after[i];
    match last_column_index(before, c.id) {
        None => true,
        Some(j) => !(old_positions.contains_key(c.id) && old_positions[c.id] == position) || before[j].name@
            != c.name@ || before[j].color@ != c.color@ || before[j].sort_order != c.sort_order,
    }
}

/// A column that needs no write is already stored as it is: the stored
/// column with its identifier has the same name, colour and sort order, and
/// its stored position is the one it gets.
pub proof fn lemma_unchanged_column_is_stored(
    before: Seq<Column>,
    after: Seq<Column>,
    old_positions: Map<i64, i64>,
    i: int,
    position: i64,
)
    requires
        0 <= i < after.len(),
        !column_changed(before, after, old_positions, i, position),
    ensures
        exists|j: int|
            0 <= j < before.len() && #[trigger] before[j].id == after[i].id && before[j].name@ == after[i].name@
                && before[j].color@ == after[i].color@ && before[j].sort_order == after[i].sort_order,
        old_positions.contains_key(after[i].id) && old_positions[after[i].id] == position,
{
    lemma_last_column_index_found(before, after[i].id);
    let j = last_column_index(before, after[i].id).unwrap();
    assert(before[j].id == after[i].id);
}

proof fn lemma_last_in_tasks(tasks: Seq<Task>, id: i64, n: int)
    requires
        0 <= n <= tasks.len(),
        exists|k: int| 0 <= k < n && #[trigger] tasks[k].id == id,
        forall|k: int| n <= k < tasks.len() ==> #[trigger] tasks[k].id != id,
    ensures
        exists|t: int|
            0 <= t < tasks.len() && tasks[t].id == id && forall|k: int| t < k < tasks.len() ==> #[trigger] tasks[k].id
                != id,
    decreases n,
{
    if tasks[n - 1].id != id {
        lemma_last_in_tasks(tasks, id, n - 1);
    } else {
        assert(forall|k: int| n - 1 < k < tasks.len() ==> #[trigger] tasks[k].id != id);
    }
}

proof fn lemma_last_location_exists(d: StoredData, id: i64, n: int)
    requires
        0 <= n <= d.columns@.len(),
        exists|c: int, t: int| 0 <= c < n && 0 <= t < d.columns@[c].tasks@.len() && #[trigger] d.columns@[c].tasks@[t].id == id,
        forall|c: int, t: int|
            n <= c < d.columns@.len() && 0 <= t < d.columns@[c].tasks@.len() ==> #[trigger] d.columns@[c].tasks@[t].id != id,
    ensures
        exists|c: int, t: int| #[trigger] last_location(d, id, c, t),
    decreases n,
{
    let tasks = d.columns@[n - 1].tasks@;
    if exists|t: int| 0 <= t < tasks.len() && #[trigger] tasks[t].id == id {
        lemma_last_in_tasks(tasks, id, tasks.len() as int);
        let t = choose|t: int|
            0 <= t < tasks.len() && tasks[t].id == id && forall|k: int| t < k < tasks.len() ==> #[trigger] tasks[k].id != id;
        assert(last_location(d, id, n - 1, t));
    } else {
        assert forall|c: int, t: int|
            n - 1 <= c < d.columns@.len() && 0 <= t < d.columns@[c].tasks@.len() implies #[trigger] d.columns@[c].tasks@[t].id
                != id by {
            if c == n - 1 {
                assert(tasks[t] == d.columns@[c].tasks@[t]);
            }
        }
        let (c0, t0) = choose|c: int, t: int|
            0 <= c < n && 0 <= t < d.columns@[c].tasks@.len() && #[trigger] d.columns@[c].tasks@[t].id == id;
        assert(c0 < n - 1) by {
            if c0 == n - 1 {
                assert(tasks[t0].id == id);
            }
        }
        lemma_last_location_exists(d, id, n - 1);
    }
}

/// A task that needs no write is already stored as it is: its last stored
/// copy lies in the column with the same identifier, holds the same
/// contents, and its stored position is the one it gets.
pub proof fn lemma_unchanged_task_is_stored(
    before: StoredData,
    old_positions: Map<i64, i64>,
    after: StoredData,
    c: int,
    t: int,
    position: i64,
)
    requires
        0 <= c < after.columns@.len(),
        0 <= t < after.columns@[c].tasks@.len(),
        !task_changed(before, old_positions, after, c, t, position),
    ensures
        exists|oc: int, ot: int|
            #[trigger] last_location(before, after.columns@[c].tasks@[t].id, oc, ot) && before.columns@[oc].id
                == after.columns@[c].id && before.columns@[oc].tasks@[ot]@ == after.columns@[c].tasks@[t]@,
        old_positions.contains_key(after.columns@[c].tasks@[t].id) && old_positions[after.columns@[c].tasks@[t].id]
            == position,
{
    let id = after.columns@[c].tasks@[t].id;
    assert(has_task(before, id));
    lemma_last_location_exists(before, id, before.columns@.len() as int);
    let (oc, ot) = choose|oc: int, ot: int| #[trigger] last_location(before, id, oc, ot);
    assert(last_location(before, id, oc, ot));
}

proof fn lemma_last_column_index_found(cols: Seq<Column>, id: i64)
    ensures
        last_column_index(cols, id) matches Some(j) ==> 0 <= j < cols.len() && cols[j].id == id,
    decreases cols.len(),
{
    if cols.len() > 0 && cols.last().id != id {
        lemma_last_column_index_found(cols.drop_last(), id);
    }
}

proof fn lemma_last_column_index(cols: Seq<Column>, id: i64, j: int)
    requires
        0 <= j < cols.len(),
        cols[j].id == id,
        forall|k: int| j < k < cols.len() ==> #[trigger] cols[k].id != id,
    ensures
        last_column_index(cols, id) == Some(j),
    decreases cols.len(),
{
    if j < cols.len() - 1 {
        lemma_last_column_index(cols.drop_last(), id, j);
    }
}

proof fn lemma_last_column_index_none(cols: Seq<Column>, id: i64)
    requires
        forall|k: int| 0 <= k < cols.len() ==> #[trigger] cols[k].id != id,
    ensures
        last_column_index(cols, id) is None,
    decreases cols.len(),
{
    if cols.len() > 0 {
        lemma_last_column_index_none(cols.drop_last(), id);
    }
}

/// The index of the last column of `cols` with identifier `id`.
fn last_column_with(cols: &Vec<Column>, id: i64) -> (r: Option<usize>)
    ensures
        match r {
            Some(j) => j < cols@.len() && last_column_index(cols@, id) == Some(j as int),
            None => last_column_index(cols@, id) is None && forall|k: int| 0 <= k < cols@.len() ==> cols@[k].id != id,
        },
{
    let n = cols.len();
    let mut i = n;
    while i > 0
        invariant
            i <= n,
            n == cols@.len(),
            forall|k: int| i <= k < n ==> #[trigger] cols@[k].id != id,
        decreases i,
    {
        if cols[i - 1].id == id {
            proof {
                lemma_last_column_index(cols@, id, i - 1);
            }
            return Some(i - 1);
        }
        i = i - 1;
    }
    proof {
        lemma_last_column_index_none(cols@, id);
    }
    None
}

/// Whether `v` holds `x`.
fn holds(v: &Vec<i64>, x: i64) -> (r: bool)
    ensures
        r == v@.contains(x),
{
    let n = v.len();
    for i in 0..n
        invariant
            n == v@.len(),
            forall|k: int| 0 <= k < i ==> v@[k] != x,
    {
        if v[i] == x {
            return true;
        }
    }
    false
}

/// The identifiers of the columns of `before` that `after` no longer has,
/// each once.
pub fn removed_column_ids(before: &StoredData, after: &StoredData) -> (r: Vec<i64>)
    ensures
        r@.no_duplicates(),
        forall|id: i64| r@.contains(id) <==> has_column(*before, id) && !has_column(*after, id),
{
    let mut r: Vec<i64> = Vec::new();
    let n = before.columns.len();
    let mut i: usize = 0;
    while i < n
        invariant
            n == before.columns@.len(),
            i <= n,
            r@.no_duplicates(),
            forall|x: i64| #[trigger] r@.contains(x) ==> has_column(*before, x) && !has_column(*after, x),
            forall|k: int|
                0 <= k < i && !has_column(*after, before.columns@[k].id) ==> r@.contains(
                    #[trigger] before.columns@[k].id,
                ),
        decreases n - i,
    {
        let id = before.columns[i].id;
        let kept = match last_column_with(&after.columns, id) {
            Some(_) => true,
            None => false,
        };
        proof {
            if kept {
                lemma_last_found(after.columns@, id);
                assert(has_column(*after, id));
            } else {
                assert(!has_column(*after, id));
            }
            assert(has_column(*before, id)) by {
                assert(before.columns@[i as int].id == id);
            }
        }
        let ghost old_r = r@;
        let pushed = !kept && !holds(&r, id);
        if pushed {
            r.push(id);
            proof {
                assert(r@ == old_r.push(id));
                assert forall|a: int, b: int| 0 <= a < b < r@.len() implies r@[a] != r@[b] by {
                    if b == old_r.len() {
                        assert(old_r.contains(old_r[a]));
                    }
                }
                assert forall|x: i64| #[trigger] r@.contains(x) implies has_column(*before, x) && !has_column(*after, x) by {
                    let k = choose|k: int| 0 <= k < r@.len() && r@[k] == x;
                    if k < old_r.len() {
                        assert(old_r[k] == x);
                        assert(old_r.contains(x));
                    }
                }
                assert forall|k: int|
                    0 <= k < i + 1 && !has_column(*after, before.columns@[k].id) implies r@.contains(
                    #[trigger] before.columns@[k].id,
                ) by {
                    if k < i {
                        let x = before.columns@[k].id;
                        assert(old_r.contains(x));
                        let q = choose|q: int| 0 <= q < old_r.len() && old_r[q] == x;
                        assert(r@[q] == x);
                    } else {
                        assert(r@[old_r.len() as int] == id);
                    }
                }
            }
        }
        i = i + 1;
    }
    r
}

proof fn lemma_last_found(cols: Seq<Column>, id: i64)
    requires
        last_column_index(cols, id) is Some,
    ensures
        exists|k: int| 0 <= k < cols.len() && #[trigger] cols[k].id == id,
    decreases cols.len(),
{
    if cols.last().id == id {
        assert(cols[cols.len() - 1].id == id);
    } else {
        lemma_last_found(cols.drop_last(), id);
        let k = choose|k: int| 0 <= k < cols.drop_last().len() && #[trigger] cols.drop_last()[k].id == id;
        assert(cols[k].id == id);
    }
}


/// The identifiers of the tasks of `before`'s columns that `after`'s
/// columns no longer hold, each once.
pub fn removed_task_ids(before: &StoredData, after: &StoredData, after_tasks: &HashMap<i64, (i64, usize, usize)>) -> (r:
    Vec<i64>)
    requires
        forall|id: i64| after_tasks@.contains_key(id) <==> has_task(*after, id),
    ensures
        r@.no_duplicates(),
        forall|id: i64| r@.contains(id) <==> has_task(*before, id) && !has_task(*after, id),
{
    let mut r: Vec<i64> = Vec::new();
    let n = before.columns.len();
    let mut c: usize = 0;
    while c < n
        invariant
            n == before.columns@.len(),
            c <= n,
            forall|id: i64| after_tasks@.contains_key(id) <==> has_task(*after, id),
            r@.no_duplicates(),
            forall|x: i64| #[trigger] r@.contains(x) ==> has_task(*before, x) && !has_task(*after, x),
            forall|c2: int, k: int|
                0 <= c2 < c && 0 <= k < before.columns@[c2].tasks@.len() && !has_task(
                    *after,
                    before.columns@[c2].tasks@[k].id,
                ) ==> r@.contains(#[trigger] before.columns@[c2].tasks@[k].id),
        decreases n - c,
    {
        let m = before.columns[c].tasks.len();
        let mut t: usize = 0;
        while t < m
            invariant
                n == before.columns@.len(),
                c < n,
                m == before.columns@[c as int].tasks@.len(),
                t <= m,
                forall|id: i64| after_tasks@.contains_key(id) <==> has_task(*after, id),
                r@.no_duplicates(),
                forall|x: i64| #[trigger] r@.contains(x) ==> has_task(*before, x) && !has_task(*after, x),
                forall|c2: int, k: int|
                    0 <= c2 < c && 0 <= k < before.columns@[c2].tasks@.len() && !has_task(
                        *after,
                        before.columns@[c2].tasks@[k].id,
                    ) ==> r@.contains(#[trigger] before.columns@[c2].tasks@[k].id),
                forall|k: int|
                    0 <= k < t && !has_task(*after, before.columns@[c as int].tasks@[k].id) ==> r@.contains(
                        #[trigger] before.columns@[c as int].tasks@[k].id,
                    ),
            decreases m - t,
        {
            let id = before.columns[c].tasks[t].id;
            proof {
                assert(has_task(*before, id)) by {
                    assert(before.columns@[c as int].tasks@[t as int].id == id);
                }
            }
            let ghost old_r = r@;
            let pushed = !after_tasks.contains_key(&id) && !holds(&r, id);
            if pushed {
                r.push(id);
                proof {
                    assert(r@ == old_r.push(id));
                    assert forall|a: int, b: int| 0 <= a < b < r@.len() implies r@[a] != r@[b] by {
                        if b == old_r.len() {
                            assert(old_r.contains(old_r[a]));
                        }
                    }
                    assert forall|x: i64| #[trigger] r@.contains(x) implies has_task(*before, x) && !has_task(
                        *after,
                        x,
                    ) by {
                        let k = choose|k: int| 0 <= k < r@.len() && r@[k] == x;
                        if k < old_r.len() {
                            assert(old_r[k] == x);
                            assert(old_r.contains(x));
                        }
                    }
                    assert forall|x: i64| old_r.contains(x) implies #[trigger] r@.contains(x) by {
                        let q = choose|q: int| 0 <= q < old_r.len() && old_r[q] == x;
                        assert(r@[q] == x);
                    }
                    assert(r@[old_r.len() as int] == id);
                }
            }
            t = t + 1;
        }
        c = c + 1;
    }
    proof {
        assert forall|x: i64| has_task(*before, x) && !has_task(*after, x) implies r@.contains(x) by {
            let (c2, k) = choose|c2: int, k: int|
                0 <= c2 < before.columns@.len() && 0 <= k < before.columns@[c2].tasks@.len()
                    && #[trigger] before.columns@[c2].tasks@[k].id == x;
            assert(r@.contains(before.columns@[c2].tasks@[k].id));
        }
    }
    r
}

/// Whether column `i` of `cols` is the last column with its identifier.
fn is_last_of_its_id(cols: &Vec<Column>, i: usize) -> (r: bool)
    requires
        i < cols@.len(),
    ensures
        r == last_of_its_id(cols@, i as int),
{
    let n = cols.len();
    let id = cols[i].id;
    let mut k = i + 1;
    while k < n
        invariant
            i < k <= n,
            n == cols@.len(),
            id == cols@[i as int].id,
            forall|q: int| i < q < k ==> #[trigger] cols@[q].id != id,
        decreases n - k,
    {
        if cols[k].id == id {
            return false;
        }
        k = k + 1;
    }
    true
}

/// The columns of `after` to write, with their positions: each identifier
/// once, by its last column, when that column is new, moved or changed.
pub fn column_writes(
    before: &StoredData,
    after: &StoredData,
    old_positions: &HashMap<i64, i64>,
    new_positions: &HashMap<i64, i64>,
) -> (r: Vec<(usize, i64)>)
    requires
        forall|i: int| 0 <= i < after.columns@.len() ==> new_positions@.contains_key(#[trigger] after.columns@[i].id),
    ensures
        forall|a: int, b: int| 0 <= a < b < r@.len() ==> r@[a].0 < r@[b].0,
        forall|k: int|
            0 <= k < r@.len() ==> {
                let (i, p) = #[trigger] r@[k];
                &&& last_of_its_id(after.columns@, i as int)
                &&& p == new_positions@[after.columns@[i as int].id]
                &&& column_changed(before.columns@, after.columns@, old_positions@, i as int, p)
            },
        forall|i: int|
            #[trigger] last_of_its_id(after.columns@, i) && column_changed(
                before.columns@,
                after.columns@,
                old_positions@,
                i,
                new_positions@[after.columns@[i].id],
            ) ==> exists|k: int| 0 <= k < r@.len() && r@[k].0 == i,
        forall|i: int|
            #[trigger] last_of_its_id(after.columns@, i) && (forall|k: int| 0 <= k < r@.len() ==> r@[k].0 != i)
                ==> (exists|j: int|
                0 <= j < before.columns@.len() && before.columns@[j].id == after.columns@[i].id
                    && before.columns@[j].name@ == after.columns@[i].name@ && before.columns@[j].color@
                    == after.columns@[i].color@ && before.columns@[j].sort_order == after.columns@[i].sort_order)
                && old_positions@.contains_key(after.columns@[i].id) && old_positions@[after.columns@[i].id]
                == new_positions@[after.columns@[i].id],
{
    let r = column_writes_found(before, after, old_positions, new_positions);
    proof {
        assert forall|i: int|
            #[trigger] last_of_its_id(after.columns@, i) && (forall|k: int| 0 <= k < r@.len() ==> r@[k].0 != i)
                implies (exists|j: int|
                0 <= j < before.columns@.len() && before.columns@[j].id == after.columns@[i].id
                    && before.columns@[j].name@ == after.columns@[i].name@ && before.columns@[j].color@
                    == after.columns@[i].color@ && before.columns@[j].sort_order == after.columns@[i].sort_order)
                && old_positions@.contains_key(after.columns@[i].id) && old_positions@[after.columns@[i].id]
                == new_positions@[after.columns@[i].id] by {
            if column_changed(before.columns@, after.columns@, old_positions@, i, new_positions@[after.columns@[i].id]) {
                let k = choose|k: int| 0 <= k < r@.len() && r@[k].0 == i;
                assert(r@[k].0 != i);
            }
            lemma_unchanged_column_is_stored(
                before.columns@,
                after.columns@,
                old_positions@,
                i,
                new_positions@[after.columns@[i].id],
            );
        }
    }
    r
}

/// The writes of [`column_writes`], before what they leave out is read back.
fn column_writes_found(
    before: &StoredData,
    after: &StoredData,
    old_positions: &HashMap<i64, i64>,
    new_positions: &HashMap<i64, i64>,
) -> (r: Vec<(usize, i64)>)
    requires
        forall|i: int| 0 <= i < after.columns@.len() ==> new_positions@.contains_key(#[trigger] after.columns@[i].id),
    ensures
        forall|a: int, b: int| 0 <= a < b < r@.len() ==> r@[a].0 < r@[b].0,
        forall|k: int|
            0 <= k < r@.len() ==> {
                let (i, p) = #[trigger] r@[k];
                &&& last_of_its_id(after.columns@, i as int)
                &&& p == new_positions@[after.columns@[i as int].id]
                &&& column_changed(before.columns@, after.columns@, old_positions@, i as int, p)
            },
        forall|i: int|
            #[trigger] last_of_its_id(after.columns@, i) && column_changed(
                before.columns@,
                after.columns@,
                old_positions@,
                i,
                new_positions@[after.columns@[i].id],
            ) ==> exists|k: int| 0 <= k < r@.len() && r@[k].0 == i,
{
    let mut r: Vec<(usize, i64)> = Vec::new();
    let n = after.columns.len();
    let mut i: usize = 0;
    while i < n
        invariant
            n == after.columns@.len(),
            i <= n,
            forall|q: int| 0 <= q < after.columns@.len() ==> new_positions@.contains_key(#[trigger] after.columns@[q].id),
            forall|a: int| 0 <= a < r@.len() ==> r@[a].0 < i,
            forall|a: int, b: int| 0 <= a < b < r@.len() ==> r@[a].0 < r@[b].0,
            forall|k: int|
                0 <= k < r@.len() ==> {
                    let (q, p) = #[trigger] r@[k];
                    &&& last_of_its_id(after.columns@, q as int)
                    &&& p == new_positions@[after.columns@[q as int].id]
                    &&& column_changed(before.columns@, after.columns@, old_positions@, q as int, p)
                },
            forall|q: int|
                0 <= q < i && #[trigger] last_of_its_id(after.columns@, q) && column_changed(
                    before.columns@,
                    after.columns@,
                    old_positions@,
                    q,
                    new_positions@[after.columns@[q].id],
                ) ==> exists|k: int| 0 <= k < r@.len() && r@[k].0 == q,
        decreases n - i,
    {
        if is_last_of_its_id(&after.columns, i) {
            let column = &after.columns[i];
            let position = match new_positions.get(&column.id) {
                Some(p) => *p,
                None => 0,
            };
            let changed = match last_column_with(&before.columns, column.id) {
                None => true,
                Some(j) => {
                    let old = &before.columns[j];
                    let same_position = match old_positions.get(&column.id) {
                        Some(p) => *p == position,
                        None => false,
                    };
                    !same_position || old.name != column.name || old.color != column.color || old.sort_order
                        != column.sort_order
                },
            };
            if changed {
                let ghost old_r = r@;
                r.push((i, position));
                proof {
                    assert forall|q: int|
                        0 <= q < i + 1 && #[trigger] last_of_its_id(after.columns@, q) && column_changed(
                            before.columns@,
                            after.columns@,
                            old_positions@,
                            q,
                            new_positions@[after.columns@[q].id],
                        ) implies exists|k: int| 0 <= k < r@.len() && r@[k].0 == q by {
                        if q < i {
                            let k = choose|k: int| 0 <= k < old_r.len() && old_r[k].0 == q;
                            assert(r@[k].0 == q);
                        } else {
                            assert(r@[old_r.len() as int].0 == q);
                        }
                    }
                }
            }
        }
        i = i + 1;
    }
    r
}

/// Task `t` of column `c` of `after`, with identifier `id`, has to be
/// written at `position`: it is new, changed column, moved, or changed.
pub open spec fn task_changed(before: StoredData, old_positions: Map<i64, i64>, after: StoredData, c: int, t: int, position: i64) -> bool {
    let task = after.columns@[c].tasks@[t];
    let id = task.id;
    !has_task(before, id) || exists|oc: int, ot: int| #[trigger]
        last_location(before, id, oc, ot) && (before.columns@[oc].id != after.columns@[c].id || !(
        old_positions.contains_key(id) && old_positions[id] == position) || before.columns@[oc].tasks@[ot]@
            != task@)
}

/// The tasks of `after` to write, with their positions: each identifier
/// once, by its last task, when that task is new, changed column, moved or
/// changed.
pub fn task_writes(
    before: &StoredData,
    after: &StoredData,
    before_tasks: &HashMap<i64, (i64, usize, usize)>,
    after_tasks: &HashMap<i64, (i64, usize, usize)>,
    old_positions: &HashMap<i64, i64>,
    new_positions: &HashMap<i64, i64>,
) -> (r: Vec<(usize, usize, i64)>)
    requires
        forall|id: i64| before_tasks@.contains_key(id) <==> has_task(*before, id),
        forall|id: i64|
            #[trigger] before_tasks@.contains_key(id) ==> last_location(
                *before,
                id,
                before_tasks@[id].1 as int,
                before_tasks@[id].2 as int,
            ) && before_tasks@[id].0 == before.columns@[before_tasks@[id].1 as int].id,
        forall|id: i64| after_tasks@.contains_key(id) <==> has_task(*after, id),
        forall|id: i64|
            #[trigger] after_tasks@.contains_key(id) ==> last_location(
                *after,
                id,
                after_tasks@[id].1 as int,
                after_tasks@[id].2 as int,
            ) && after_tasks@[id].0 == after.columns@[after_tasks@[id].1 as int].id,
        forall|c: int, t: int|
            0 <= c < after.columns@.len() && 0 <= t < after.columns@[c].tasks@.len() ==> new_positions@.contains_key(
                #[trigger] after.columns@[c].tasks@[t].id,
            ),
    ensures
        forall|k: int|
            0 <= k < r@.len() ==> {
                let (c, t, p) = #[trigger] r@[k];
                &&& last_location(*after, after.columns@[c as int].tasks@[t as int].id, c as int, t as int)
                &&& p == new_positions@[after.columns@[c as int].tasks@[t as int].id]
                &&& task_changed(*before, old_positions@, *after, c as int, t as int, p)
            },
        forall|c: int, t: int|
            #[trigger] last_location(*after, after.columns@[c].tasks@[t].id, c, t) && task_changed(
                *before,
                old_positions@,
                *after,
                c,
                t,
                new_positions@[after.columns@[c].tasks@[t].id],
            ) ==> exists|k: int| 0 <= k < r@.len() && r@[k].0 == c && r@[k].1 == t,
        forall|a: int, b: int|
            0 <= a < b < r@.len() ==> r@[a].0 < r@[b].0 || (r@[a].0 == r@[b].0 && r@[a].1 < r@[b].1),
{
    let mut r: Vec<(usize, usize, i64)> = Vec::new();
    let n = after.columns.len();
    let mut c: usize = 0;
    while c < n
        invariant
            n == after.columns@.len(),
            c <= n,
            forall|id: i64| before_tasks@.contains_key(id) <==> has_task(*before, id),
            forall|id: i64|
                #[trigger] before_tasks@.contains_key(id) ==> last_location(
                    *before,
                    id,
                    before_tasks@[id].1 as int,
                    before_tasks@[id].2 as int,
                ) && before_tasks@[id].0 == before.columns@[before_tasks@[id].1 as int].id,
            forall|id: i64| after_tasks@.contains_key(id) <==> has_task(*after, id),
            forall|id: i64|
                #[trigger] after_tasks@.contains_key(id) ==> last_location(
                    *after,
                    id,
                    after_tasks@[id].1 as int,
                    after_tasks@[id].2 as int,
                ) && after_tasks@[id].0 == after.columns@[after_tasks@[id].1 as int].id,
            forall|c2: int, t: int|
                0 <= c2 < after.columns@.len() && 0 <= t < after.columns@[c2].tasks@.len() ==> new_positions@.contains_key(
                    #[trigger] after.columns@[c2].tasks@[t].id,
                ),
            forall|k: int| 0 <= k < r@.len() ==> r@[k].0 < c,
            forall|a: int, b: int|
                0 <= a < b < r@.len() ==> r@[a].0 < r@[b].0 || (r@[a].0 == r@[b].0 && r@[a].1 < r@[b].1),
            forall|k: int|
                0 <= k < r@.len() ==> {
                    let (c2, t, p) = #[trigger] r@[k];
                    &&& last_location(*after, after.columns@[c2 as int].tasks@[t as int].id, c2 as int, t as int)
                    &&& p == new_positions@[after.columns@[c2 as int].tasks@[t as int].id]
                    &&& task_changed(*before, old_positions@, *after, c2 as int, t as int, p)
                },
            forall|c2: int, t: int|
                0 <= c2 < c && #[trigger] last_location(*after, after.columns@[c2].tasks@[t].id, c2, t) && task_changed(
                    *before,
                    old_positions@,
                    *after,
                    c2,
                    t,
                    new_positions@[after.columns@[c2].tasks@[t].id],
                ) ==> exists|k: int| 0 <= k < r@.len() && r@[k].0 == c2 && r@[k].1 == t,
        decreases n - c,
    {
        let m = after.columns[c].tasks.len();
        let mut t: usize = 0;
        while t < m
            invariant
                n == after.columns@.len(),
                c < n,
                m == after.columns@[c as int].tasks@.len(),
                t <= m,
                forall|id: i64| before_tasks@.contains_key(id) <==> has_task(*before, id),
                forall|id: i64|
                    #[trigger] before_tasks@.contains_key(id) ==> last_location(
                        *before,
                        id,
                        before_tasks@[id].1 as int,
                        before_tasks@[id].2 as int,
                    ) && before_tasks@[id].0 == before.columns@[before_tasks@[id].1 as int].id,
                forall|id: i64| after_tasks@.contains_key(id) <==> has_task(*after, id),
                forall|id: i64|
                    #[trigger] after_tasks@.contains_key(id) ==> last_location(
                        *after,
                        id,
                        after_tasks@[id].1 as int,
                        after_tasks@[id].2 as int,
                    ) && after_tasks@[id].0 == after.columns@[after_tasks@[id].1 as int].id,
                forall|c2: int, t2: int|
                    0 <= c2 < after.columns@.len() && 0 <= t2 < after.columns@[c2].tasks@.len()
                        ==> new_positions@.contains_key(#[trigger] after.columns@[c2].tasks@[t2].id),
                forall|k: int| 0 <= k < r@.len() ==> r@[k].0 < c || (r@[k].0 == c && r@[k].1 < t),
                forall|a: int, b: int|
                    0 <= a < b < r@.len() ==> r@[a].0 < r@[b].0 || (r@[a].0 == r@[b].0 && r@[a].1 < r@[b].1),
                forall|k: int|
                    0 <= k < r@.len() ==> {
                        let (c2, t2, p) = #[trigger] r@[k];
                        &&& last_location(*after, after.columns@[c2 as int].tasks@[t2 as int].id, c2 as int, t2 as int)
                        &&& p == new_positions@[after.columns@[c2 as int].tasks@[t2 as int].id]
                        &&& task_changed(*before, old_positions@, *after, c2 as int, t2 as int, p)
                    },
                forall|c2: int, t2: int|
                    (0 <= c2 < c || (c2 == c && 0 <= t2 < t)) && #[trigger] last_location(
                        *after,
                        after.columns@[c2].tasks@[t2].id,
                        c2,
                        t2,
                    ) && task_changed(
                        *before,
                        old_positions@,
                        *after,
                        c2,
                        t2,
                        new_positions@[after.columns@[c2].tasks@[t2].id],
                    ) ==> exists|k: int| 0 <= k < r@.len() && r@[k].0 == c2 && r@[k].1 == t2,
            decreases m - t,
        {
            let task = &after.columns[c].tasks[t];
            let id = task.id;
            let here = match after_tasks.get(&id) {
                Some(loc) => loc.1 == c && loc.2 == t,
                None => false,
            };
            proof {
                assert(has_task(*after, id)) by {
                    assert(after.columns@[c as int].tasks@[t as int].id == id);
                }
                if !here {
                    let (_, lc, lt) = after_tasks@[id];
                    assert(last_location(*after, id, lc as int, lt as int));
                    if last_location(*after, id, c as int, t as int) {
                        if (lc as int) < c {
                            assert(after.columns@[c as int].tasks@[t as int].id == id);
                        } else if c < lc {
                            assert(after.columns@[lc as int].tasks@[lt as int].id == id);
                        } else if (lt as int) < t {
                            assert(after.columns@[c as int].tasks@[t as int].id == id);
                        } else {
                            assert(after.columns@[lc as int].tasks@[lt as int].id == id);
                        }
                    }
                }
            }
            if here {
                let position = match new_positions.get(&id) {
                    Some(p) => *p,
                    None => 0,
                };
                let changed = match before_tasks.get(&id) {
                    None => true,
                    Some(loc) => {
                        let same_position = match old_positions.get(&id) {
                            Some(p) => *p == position,
                            None => false,
                        };
                        loc.0 != after.columns[c].id || !same_position || !task_equal(
                            &before.columns[loc.1].tasks[loc.2],
                            task,
                        )
                    },
                };
                proof {
                    if before_tasks@.contains_key(id) {
                        let (bc, bi, bt) = before_tasks@[id];
                        assert(last_location(*before, id, bi as int, bt as int));
                        assert forall|oc: int, ot: int| #[trigger]
                            last_location(*before, id, oc, ot) implies oc == bi && ot == bt by {
                            if oc < bi {
                                assert(before.columns@[oc].tasks@[ot].id == id);
                            } else if bi < oc {
                                assert(before.columns@[bi as int].tasks@[bt as int].id == id);
                            } else if ot < bt {
                                assert(before.columns@[oc].tasks@[ot].id == id);
                            } else if bt < ot {
                                assert(before.columns@[bi as int].tasks@[bt as int].id == id);
                            }
                        }
                    }
                }
                if changed {
                    let ghost old_r = r@;
                    r.push((c, t, position));
                    proof {
                        assert forall|c2: int, t2: int|
                            (0 <= c2 < c || (c2 == c && 0 <= t2 < t + 1)) && #[trigger] last_location(
                                *after,
                                after.columns@[c2].tasks@[t2].id,
                                c2,
                                t2,
                            ) && task_changed(
                                *before,
                                old_positions@,
                                *after,
                                c2,
                                t2,
                                new_positions@[after.columns@[c2].tasks@[t2].id],
                            ) implies exists|k: int| 0 <= k < r@.len() && r@[k].0 == c2 && r@[k].1 == t2 by {
                            if c2 == c && t2 == t {
                                assert(r@[old_r.len() as int].0 == c2 && r@[old_r.len() as int].1 == t2);
                            } else {
                                let k = choose|k: int| 0 <= k < old_r.len() && old_r[k].0 == c2 && old_r[k].1 == t2;
                                assert(r@[k].0 == c2 && r@[k].1 == t2);
                            }
                        }
                    }
                }
            }
            t = t + 1;
        }
        c = c + 1;
    }
    r
}


/// Maps laid over one another in order: on a shared key the later wins.
pub open spec fn overlay(ms: Seq<Map<i64, i64>>) -> Map<i64, i64>
    decreases ms.len(),
{
    if ms.len() == 0 {
        Map::empty()
    } else {
        overlay(ms.drop_last()).union_prefer_right(ms.last())
    }
}

/// `per` holds, column by column, a position assignment for the tasks of
/// that column of `after`.
pub open spec fn column_assignments(after: StoredData, old: Map<i64, i64>, per: Seq<Map<i64, i64>>) -> bool {
    &&& per.len() == after.columns@.len()
    &&& forall|c: int| 0 <= c < per.len() ==> assignment_ok(task_ids_of(after.columns@[c].tasks@), old, #[trigger] per[c])
}

/// The identifiers of `tasks`, in order.
pub(crate) fn task_id_list(tasks: &Vec<Task>) -> (r: Vec<i64>)
    ensures
        r@ == task_ids_of(tasks@),
{
    let mut r: Vec<i64> = Vec::new();
    let n = tasks.len();
    for k in 0..n
        invariant
            n == tasks@.len(),
            r@ == task_ids_of(tasks@.take(k as int)),
    {
        r.push(tasks[k].id);
        proof {
            assert(task_ids_of(tasks@.take(k + 1)) =~= task_ids_of(tasks@.take(k as int)).push(tasks@[k as int].id));
        }
    }
    proof {
        assert(tasks@.take(n as int) =~= tasks@);
    }
    r
}

/// `m` with every entry of `cm` laid over it; `cm` has exactly the keys
/// `ids`.
fn lay_over(m: &mut HashMap<i64, i64>, ids: &Vec<i64>, cm: &HashMap<i64, i64>)
    requires
        cm@.dom() == ids@.to_set(),
    ensures
        final(m)@ == old(m)@.union_prefer_right(cm@),
{
    let ghost m0 = old(m)@;
    let n = ids.len();
    for k in 0..n
        invariant
            n == ids@.len(),
            cm@.dom() == ids@.to_set(),
            m@ == m0.union_prefer_right(cm@.restrict(ids@.take(k as int).to_set())),
    {
        let id = ids[k];
        proof {
            assert(ids@.to_set().contains(ids@[k as int]));
        }
        let v = match cm.get(&id) {
            Some(v) => *v,
            None => 0,
        };
        m.insert(id, v);
        proof {
            assert(ids@.take(k + 1).to_set() =~= ids@.take(k as int).to_set().insert(id)) by {
                assert(ids@.take(k + 1) =~= ids@.take(k as int).push(id));
                ids@.take(k as int).lemma_push_to_set_commute(id);
            }
            assert(m@ =~= m0.union_prefer_right(cm@.restrict(ids@.take(k + 1).to_set())));
        }
    }
    proof {
        assert(ids@.take(n as int) =~= ids@);
        assert(cm@.restrict(ids@.to_set()) =~= cm@);
    }
}

/// Sort positions for the tasks of `after`, column by column: each column's
/// tasks keep what they can of `old_positions`; a task identifier that
/// occurs in several columns takes its position from the last of them.
pub fn task_positions(after: &StoredData, old_positions: &HashMap<i64, i64>) -> (r: Result<HashMap<i64, i64>, String>)
    ensures
        r matches Ok(m) ==> exists|per: Seq<Map<i64, i64>>| #[trigger]
            column_assignments(*after, old_positions@, per) && m@ == overlay(per),
        r matches Ok(m) ==> forall|id: i64| m@.contains_key(id) <==> has_task(*after, id),
        r matches Err(e) ==> e@ == "Too many items to assign sort positions"@,
        r is Err ==> exists|c: int|
            0 <= c < after.columns@.len() && (task_ids_of(after.columns@[c].tasks@).no_duplicates() ==> evenly_spaced(
                #[trigger] after.columns@[c].tasks@.len() as int,
            ) is None),
{
    let mut m: HashMap<i64, i64> = HashMap::new();
    let ghost mut per: Seq<Map<i64, i64>> = Seq::empty();
    let n = after.columns.len();
    for c in 0..n
        invariant
            n == after.columns@.len(),
            per.len() == c,
            forall|q: int| 0 <= q < c ==> assignment_ok(task_ids_of(after.columns@[q].tasks@), old_positions@, #[trigger] per[q]),
            m@ == overlay(per),
            forall|id: i64| #[trigger] m@.contains_key(id) ==> has_task(*after, id),
            forall|q: int, t: int|
                0 <= q < c && 0 <= t < after.columns@[q].tasks@.len() ==> m@.contains_key(
                    #[trigger] after.columns@[q].tasks@[t].id,
                ),
    {
        let ids = task_id_list(&after.columns[c].tasks);
        let assigned = assign_sparse_positions(ids.as_slice(), old_positions);
        let cm = match assigned {
            Ok(cm) => cm,
            Err(e) => {
                proof {
                    if ids@.no_duplicates() {
                        let anchors = choose|anchors: Seq<bool>| #[trigger]
                            anchors_valid(ids@, old_positions@, anchors) && (if fill_fits(
                                ids@,
                                old_positions@,
                                anchors,
                            ) {
                                (assigned matches Ok(m) && map_of(ids@, filled(ids@, old_positions@, anchors), m@))
                            } else {
                                fresh_positions(ids@, result_view(assigned))
                            });
                        assert(evenly_spaced(ids@.len() as int) is None);
                    }
                    assert(ids@.len() == after.columns@[c as int].tasks@.len());
                }
                return Err(e);
            },
        };
        let ghost before_m = m@;
        lay_over(&mut m, &ids, &cm);
        proof {
            let old_per = per;
            per = per.push(cm@);
            assert(per.drop_last() =~= old_per);
            assert forall|id: i64| #[trigger] m@.contains_key(id) implies has_task(*after, id) by {
                if !before_m.contains_key(id) {
                    assert(ids@.to_set().contains(id));
                    let t = choose|t: int| 0 <= t < ids@.len() && ids@[t] == id;
                    assert(after.columns@[c as int].tasks@[t].id == id);
                }
            }
            assert forall|q: int, t: int|
                0 <= q < c + 1 && 0 <= t < after.columns@[q].tasks@.len() implies m@.contains_key(
                    #[trigger] after.columns@[q].tasks@[t].id,
                ) by {
                if q == c {
                    assert(ids@[t] == after.columns@[q].tasks@[t].id);
                    assert(ids@.to_set().contains(ids@[t]));
                } else {
                    assert(before_m.contains_key(after.columns@[q].tasks@[t].id));
                }
            }
        }
    }
    proof {
        assert(column_assignments(*after, old_positions@, per));
        assert forall|id: i64| has_task(*after, id) implies m@.contains_key(id) by {
            let (q, t) = choose|q: int, t: int|
                0 <= q < after.columns@.len() && 0 <= t < after.columns@[q].tasks@.len() && #[trigger]
                    after.columns@[q].tasks@[t].id == id;
            assert(m@.contains_key(after.columns@[q].tasks@[t].id));
        }
    }
    Ok(m)
}


/// The identifiers of `cols`, in order.
pub(crate) fn column_id_list(cols: &Vec<Column>) -> (r: Vec<i64>)
    ensures
        r@ == column_ids(cols@),
{
    let mut r: Vec<i64> = Vec::new();
    let n = cols.len();
    for k in 0..n
        invariant
            n == cols@.len(),
            r@ == column_ids(cols@.take(k as int)),
    {
        r.push(cols[k].id);
        proof {
            assert(column_ids(cols@.take(k + 1)) =~= column_ids(cols@.take(k as int)).push(cols@[k as int].id));
        }
    }
    proof {
        assert(cols@.take(n as int) =~= cols@);
    }
    r
}

/// `a + b`, or `usize::MAX` where that does not fit.
pub open spec fn capped_sum(a: int, b: int) -> int {
    if a + b <= usize::MAX {
        a + b
    } else {
        usize::MAX as int
    }
}

/// The larger of two lengths.
pub open spec fn larger(a: int, b: int) -> int {
    if a < b {
        b
    } else {
        a
    }
}

/// The column and task rows a save changes: the identifiers of the task and
/// column rows that go, the column rows (index in the new columns,
/// position) and task rows (column index, task index, position) that are
/// written, and the sort positions from now on.
pub struct RowChanges {
    pub deleted_task_ids: Vec<i64>,
    pub deleted_column_ids: Vec<i64>,
    pub column_writes: Vec<(usize, i64)>,
    pub task_writes: Vec<(usize, usize, i64)>,
    pub column_positions: HashMap<i64, i64>,
    pub task_positions: HashMap<i64, i64>,
}

impl RowChanges {
    /// These are the row changes for saving `after` over `before`, where the
    /// rows held the positions `old_columns` and `old_tasks`.
    pub open spec fn planned(
        self,
        before: StoredData,
        after: StoredData,
        old_columns: Map<i64, i64>,
        old_tasks: Map<i64, i64>,
    ) -> bool {
        &&& assignment_ok(column_ids(after.columns@), old_columns, self.column_positions@)
        &&& self.deleted_task_ids@.no_duplicates()
        &&& forall|id: i64| self.deleted_task_ids@.contains(id) <==> has_task(before, id) && !has_task(after, id)
        &&& self.deleted_column_ids@.no_duplicates()
        &&& forall|id: i64|
            self.deleted_column_ids@.contains(id) <==> has_column(before, id) && !has_column(after, id)
        &&& forall|a: int, b: int|
            0 <= a < b < self.column_writes@.len() ==> self.column_writes@[a].0 < self.column_writes@[b].0
        &&& forall|k: int|
            0 <= k < self.column_writes@.len() ==> {
                let (i, pos) = #[trigger] self.column_writes@[k];
                &&& last_of_its_id(after.columns@, i as int)
                &&& pos == self.column_positions@[after.columns@[i as int].id]
                &&& column_changed(before.columns@, after.columns@, old_columns, i as int, pos)
            }
        &&& forall|i: int|
            #[trigger] last_of_its_id(after.columns@, i) && column_changed(
                before.columns@,
                after.columns@,
                old_columns,
                i,
                self.column_positions@[after.columns@[i].id],
            ) ==> exists|k: int| 0 <= k < self.column_writes@.len() && self.column_writes@[k].0 == i
        &&& forall|a: int, b: int|
            0 <= a < b < self.task_writes@.len() ==> self.task_writes@[a].0 < self.task_writes@[b].0 || (
            self.task_writes@[a].0 == self.task_writes@[b].0 && self.task_writes@[a].1 < self.task_writes@[b].1)
        &&& forall|k: int|
            0 <= k < self.task_writes@.len() ==> {
                let (c, t, pos) = #[trigger] self.task_writes@[k];
                &&& last_location(after, after.columns@[c as int].tasks@[t as int].id, c as int, t as int)
                &&& pos == self.task_positions@[after.columns@[c as int].tasks@[t as int].id]
                &&& task_changed(before, old_tasks, after, c as int, t as int, pos)
            }
        &&& forall|c: int, t: int|
            #[trigger] last_location(after, after.columns@[c].tasks@[t].id, c, t) && task_changed(
                before,
                old_tasks,
                after,
                c,
                t,
                self.task_positions@[after.columns@[c].tasks@[t].id],
            ) ==> exists|k: int|
                0 <= k < self.task_writes@.len() && self.task_writes@[k].0 == c && self.task_writes@[k].1 == t
    }
}

/// The row changes for saving `after` over `before`, given the new sort
/// positions of every column and task of `after`.
fn row_changes(
    before: &StoredData,
    after: &StoredData,
    old_columns: &HashMap<i64, i64>,
    old_tasks: &HashMap<i64, i64>,
    column_positions: HashMap<i64, i64>,
    task_positions: HashMap<i64, i64>,
) -> (r: RowChanges)
    requires
        assignment_ok(column_ids(after.columns@), old_columns@, column_positions@),
        forall|id: i64| task_positions@.contains_key(id) <==> has_task(*after, id),
    ensures
        r.planned(*before, *after, old_columns@, old_tasks@),
        r.column_positions@ == column_positions@,
        r.task_positions@ == task_positions@,
{
    let before_tasks = task_locations(before);
    let after_tasks = task_locations(after);
    let deleted_task_ids = removed_task_ids(before, after, &after_tasks);
    let deleted_column_ids = removed_column_ids(before, after);
    proof {
        assert forall|i: int| 0 <= i < after.columns@.len() implies column_positions@.contains_key(
            #[trigger] after.columns@[i].id,
        ) by {
            let ids = column_ids(after.columns@);
            assert(ids[i] == after.columns@[i].id);
            assert(ids.to_set().contains(ids[i]));
        }
        assert forall|c: int, t: int|
            0 <= c < after.columns@.len() && 0 <= t < after.columns@[c].tasks@.len() implies task_positions@.contains_key(
                #[trigger] after.columns@[c].tasks@[t].id,
            ) by {
            assert(has_task(*after, after.columns@[c].tasks@[t].id));
        }
    }
    let columns = column_writes(before, after, old_columns, &column_positions);
    let tasks = task_writes(before, after, &before_tasks, &after_tasks, old_tasks, &task_positions);
    RowChanges {
        deleted_task_ids,
        deleted_column_ids,
        column_writes: columns,
        task_writes: tasks,
        column_positions,
        task_positions,
    }
}

/// Sort positions for the columns of `after`, keeping what they can of
/// `old_positions`.
fn column_positions(after: &StoredData, old_positions: &HashMap<i64, i64>) -> (r: Result<HashMap<i64, i64>, String>)
    ensures
        r matches Ok(m) ==> assignment_ok(column_ids(after.columns@), old_positions@, m@),
        r matches Err(e) ==> e@ == "Too many items to assign sort positions"@,
        r is Err ==> (column_ids(after.columns@).no_duplicates() ==> evenly_spaced(after.columns@.len() as int) is None),
{
    let ids = column_id_list(&after.columns);
    let assigned = assign_sparse_positions(ids.as_slice(), old_positions);
    proof {
        if assigned is Err && ids@.no_duplicates() {
            let anchors = choose|anchors: Seq<bool>| #[trigger]
                anchors_valid(ids@, old_positions@, anchors) && (if fill_fits(ids@, old_positions@, anchors) {
                    (assigned matches Ok(m) && map_of(ids@, filled(ids@, old_positions@, anchors), m@))
                } else {
                    fresh_positions(ids@, result_view(assigned))
                });
            assert(evenly_spaced(ids@.len() as int) is None);
        }
    }
    assigned
}

/// What saving a board's new state over its old one writes: the column and
/// task rows, whether the archive and template rows are written anew, and
/// the counts of changed rows (metadata rows aside, which the caller
/// compares with the stored values).
pub struct BoardDiffPlan {
    pub rows: RowChanges,
    pub rewrite_archives: bool,
    pub rewrite_templates: bool,
    pub stats: PersistStats,
}

/// The changes that saving `after` over `before` writes to a board whose
/// rows hold the sort positions `old_column_positions` and
/// `old_task_positions`; archives are compared only when `include_archives`.
/// Each column's tasks keep what they can of their stored positions.
pub fn plan_board_diff(
    before: &StoredData,
    after: &StoredData,
    old_column_positions: &HashMap<i64, i64>,
    old_task_positions: &HashMap<i64, i64>,
    include_archives: bool,
) -> (r: Result<BoardDiffPlan, String>)
    ensures
        r matches Err(e) ==> e@ == "Too many items to assign sort positions"@,
        r matches Ok(p) ==> {
            &&& p.rows.planned(*before, *after, old_column_positions@, old_task_positions@)
            &&& exists|per: Seq<Map<i64, i64>>| #[trigger]
                column_assignments(*after, old_task_positions@, per) && p.rows.task_positions@ == overlay(per)
            &&& p.rewrite_archives == (include_archives && before.archives@.map_values(|x: Archive| archive_view(x))
                != after.archives@.map_values(|x: Archive| archive_view(x)))
            &&& p.rewrite_templates == (before.templates@.map_values(|t: TaskTemplate| template_contents(t))
                != after.templates@.map_values(|t: TaskTemplate| template_contents(t)))
            &&& p.stats.tasks_changed == capped_sum(
                p.rows.deleted_task_ids@.len() as int,
                p.rows.task_writes@.len() as int,
            )
            &&& p.stats.columns_changed == capped_sum(
                p.rows.deleted_column_ids@.len() as int,
                p.rows.column_writes@.len() as int,
            )
            &&& p.stats.archives_changed == (if p.rewrite_archives {
                larger(before.archives@.len() as int, after.archives@.len() as int)
            } else {
                0
            })
            &&& p.stats.templates_changed == (if p.rewrite_templates {
                larger(before.templates@.len() as int, after.templates@.len() as int)
            } else {
                0
            })
            &&& p.stats.metadata_changed == 0
        },
        column_ids(after.columns@).no_duplicates() && evenly_spaced(after.columns@.len() as int) is Some && (
        forall|c: int|
            0 <= c < after.columns@.len() ==> task_ids_of(#[trigger] after.columns@[c].tasks@).no_duplicates()
                && evenly_spaced(after.columns@[c].tasks@.len() as int) is Some) ==> r is Ok,
{
    let column_positions = match column_positions(after, old_column_positions) {
        Ok(m) => m,
        Err(e) => return Err(e),
    };
    let positioned = task_positions(after, old_task_positions);
    let task_positions = match positioned {
        Ok(m) => m,
        Err(e) => {
            proof {
                let c = choose|c: int|
                    0 <= c < after.columns@.len() && (task_ids_of(after.columns@[c].tasks@).no_duplicates() ==> evenly_spaced(
                        #[trigger] after.columns@[c].tasks@.len() as int,
                    ) is None);
                assert(task_ids_of(after.columns@[c].tasks@) == task_ids_of(after.columns@[c].tasks@));
            }
            return Err(e);
        },
    };
    let rows = row_changes(before, after, old_column_positions, old_task_positions, column_positions, task_positions);
    let rewrite_archives = include_archives && !archives_equal(&before.archives, &after.archives);
    let rewrite_templates = !templates_equal(&before.templates, &after.templates);
    let archives_changed = if rewrite_archives {
        if before.archives.len() < after.archives.len() {
            after.archives.len()
        } else {
            before.archives.len()
        }
    } else {
        0
    };
    let templates_changed = if rewrite_templates {
        if before.templates.len() < after.templates.len() {
            after.templates.len()
        } else {
            before.templates.len()
        }
    } else {
        0
    };
    let stats = PersistStats {
        columns_changed: rows.deleted_column_ids.len().saturating_add(rows.column_writes.len()),
        tasks_changed: rows.deleted_task_ids.len().saturating_add(rows.task_writes.len()),
        archives_changed,
        templates_changed,
        metadata_changed: 0,
    };
    Ok(BoardDiffPlan { rows, rewrite_archives, rewrite_templates, stats })
}



/// The stored positions of the tasks of the first column of `before` with
/// identifier `column_id`; none where `before` has no such column.
pub open spec fn kept_positions(before: StoredData, column_id: i64, old: Map<i64, i64>) -> Map<i64, i64> {
    if has_column(before, column_id) {
        let j = choose|j: int| column_at(before, column_id, j);
        old.restrict(task_ids_of(before.columns@[j].tasks@).to_set())
    } else {
        Map::empty()
    }
}

/// `per` holds, column by column, a position assignment for the tasks of
/// that column of `after` that keeps what it can of the positions the same
/// column of `before` held.
pub open spec fn carried_assignments(
    before: StoredData,
    after: StoredData,
    old: Map<i64, i64>,
    per: Seq<Map<i64, i64>>,
) -> bool {
    &&& per.len() == after.columns@.len()
    &&& forall|c: int|
        0 <= c < per.len() ==> assignment_ok(
            task_ids_of(after.columns@[c].tasks@),
            kept_positions(before, after.columns@[c].id, old),
            #[trigger] per[c],
        )
}

/// The entries of `old` for the identifiers of `tasks`.
fn positions_of(old: &HashMap<i64, i64>, tasks: &Vec<Task>) -> (r: HashMap<i64, i64>)
    ensures
        r@ == old@.restrict(task_ids_of(tasks@).to_set()),
{
    let mut r: HashMap<i64, i64> = HashMap::new();
    let n = tasks.len();
    for k in 0..n
        invariant
            n == tasks@.len(),
            r@ == old@.restrict(task_ids_of(tasks@.take(k as int)).to_set()),
    {
        let id = tasks[k].id;
        proof {
            assert(task_ids_of(tasks@.take(k + 1)) =~= task_ids_of(tasks@.take(k as int)).push(id));
            task_ids_of(tasks@.take(k as int)).lemma_push_to_set_commute(id);
        }
        match old.get(&id) {
            Some(p) => {
                r.insert(id, *p);
            },
            None => {},
        }
        proof {
            assert(r@ =~= old@.restrict(task_ids_of(tasks@.take(k + 1)).to_set()));
        }
    }
    proof {
        assert(tasks@.take(n as int) =~= tasks@);
    }
    r
}

/// Sort positions for the tasks of `after`, column by column: each column's
/// tasks keep what they can of the positions the same column of `before`
/// held; a task identifier that occurs in several columns takes its position
/// from the last of them.
pub fn carried_task_positions(before: &StoredData, after: &StoredData, old_positions: &HashMap<i64, i64>) -> (r:
    Result<HashMap<i64, i64>, String>)
    ensures
        r matches Ok(m) ==> exists|per: Seq<Map<i64, i64>>| #[trigger]
            carried_assignments(*before, *after, old_positions@, per) && m@ == overlay(per),
        r matches Ok(m) ==> forall|id: i64| m@.contains_key(id) <==> has_task(*after, id),
        r matches Err(e) ==> e@ == "Too many items to assign sort positions"@,
        r is Err ==> exists|c: int|
            0 <= c < after.columns@.len() && (task_ids_of(after.columns@[c].tasks@).no_duplicates() ==> evenly_spaced(
                #[trigger] after.columns@[c].tasks@.len() as int,
            ) is None),
{
    let mut m: HashMap<i64, i64> = HashMap::new();
    let ghost mut per: Seq<Map<i64, i64>> = Seq::empty();
    let n = after.columns.len();
    for c in 0..n
        invariant
            n == after.columns@.len(),
            per.len() == c,
            forall|q: int|
                0 <= q < c ==> assignment_ok(
                    task_ids_of(after.columns@[q].tasks@),
                    kept_positions(*before, after.columns@[q].id, old_positions@),
                    #[trigger] per[q],
                ),
            m@ == overlay(per),
            forall|id: i64| #[trigger] m@.contains_key(id) ==> has_task(*after, id),
            forall|q: int, t: int|
                0 <= q < c && 0 <= t < after.columns@[q].tasks@.len() ==> m@.contains_key(
                    #[trigger] after.columns@[q].tasks@[t].id,
                ),
    {
        let column_id = after.columns[c].id;
        let kept = match column_index(before, column_id) {
            Ok(j) => positions_of(old_positions, &before.columns[j].tasks),
            Err(_) => HashMap::new(),
        };
        proof {
            if has_column(*before, column_id) {
                let j = choose|j: int| column_at(*before, column_id, j);
                lemma_first_column_unique(*before, column_id, j);
            }
            assert(kept@ == kept_positions(*before, column_id, old_positions@));
        }
        let ids = task_id_list(&after.columns[c].tasks);
        let assigned = assign_sparse_positions(ids.as_slice(), &kept);
        let cm = match assigned {
            Ok(cm) => cm,
            Err(e) => {
                proof {
                    if ids@.no_duplicates() {
                        let anchors = choose|anchors: Seq<bool>| #[trigger]
                            anchors_valid(ids@, kept@, anchors) && (if fill_fits(ids@, kept@, anchors) {
                                (assigned matches Ok(m) && map_of(ids@, filled(ids@, kept@, anchors), m@))
                            } else {
                                fresh_positions(ids@, result_view(assigned))
                            });
                        assert(evenly_spaced(ids@.len() as int) is None);
                    }
                    assert(ids@.len() == after.columns@[c as int].tasks@.len());
                }
                return Err(e);
            },
        };
        let ghost before_m = m@;
        lay_over(&mut m, &ids, &cm);
        proof {
            let old_per = per;
            per = per.push(cm@);
            assert(per.drop_last() =~= old_per);
            assert forall|id: i64| #[trigger] m@.contains_key(id) implies has_task(*after, id) by {
                if !before_m.contains_key(id) {
                    assert(ids@.to_set().contains(id));
                    let t = choose|t: int| 0 <= t < ids@.len() && ids@[t] == id;
                    assert(after.columns@[c as int].tasks@[t].id == id);
                }
            }
            assert forall|q: int, t: int|
                0 <= q < c + 1 && 0 <= t < after.columns@[q].tasks@.len() implies m@.contains_key(
                    #[trigger] after.columns@[q].tasks@[t].id,
                ) by {
                if q == c {
                    assert(ids@[t] == after.columns@[q].tasks@[t].id);
                    assert(ids@.to_set().contains(ids@[t]));
                } else {
                    assert(before_m.contains_key(after.columns@[q].tasks@[t].id));
                }
            }
        }
    }
    proof {
        assert(carried_assignments(*before, *after, old_positions@, per));
        assert forall|id: i64| has_task(*after, id) implies m@.contains_key(id) by {
            let (q, t) = choose|q: int, t: int|
                0 <= q < after.columns@.len() && 0 <= t < after.columns@[q].tasks@.len() && #[trigger]
                    after.columns@[q].tasks@[t].id == id;
            assert(m@.contains_key(after.columns@[q].tasks@[t].id));
        }
    }
    Ok(m)
}

/// What saving the single-board store's new state over its old one
/// writes: the column and task rows, the archive and template rows that go
/// (by identifier) and that are written (by index, each identifier once),
/// and the counts of changed rows (metadata rows aside).
pub struct StoreDiffPlan {
    pub rows: RowChanges,
    pub deleted_archive_ids: Vec<i64>,
    pub written_archives: Vec<usize>,
    pub deleted_template_ids: Vec<i64>,
    pub written_templates: Vec<usize>,
    pub stats: PersistStats,
}

/// The changes that saving `after` over `before` writes to the
/// single-board store whose rows hold the sort positions
/// `old_column_positions` and `old_task_positions`; archives are compared
/// only when `include_archives`. Each column's tasks keep what they can of
/// the positions the same column held before.
pub fn plan_store_diff(
    before: &StoredData,
    after: &StoredData,
    old_column_positions: &HashMap<i64, i64>,
    old_task_positions: &HashMap<i64, i64>,
    include_archives: bool,
) -> (r: Result<StoreDiffPlan, String>)
    ensures
        r matches Err(e) ==> e@ == "Too many items to assign sort positions"@,
        r matches Ok(p) ==> {
            &&& p.rows.planned(*before, *after, old_column_positions@, old_task_positions@)
            &&& exists|per: Seq<Map<i64, i64>>| #[trigger]
                carried_assignments(*before, *after, old_task_positions@, per) && p.rows.task_positions@ == overlay(
                    per,
                )
            &&& if include_archives {
                &&& p.deleted_archive_ids@.no_duplicates()
                &&& forall|id: i64|
                    p.deleted_archive_ids@.contains(id) <==> has_key(before.archives@, id) && !has_key(
                        after.archives@,
                        id,
                    )
                &&& forall|a: int, b: int|
                    0 <= a < b < p.written_archives@.len() ==> p.written_archives@[a] < p.written_archives@[b]
                &&& forall|k: int|
                    0 <= k < p.written_archives@.len() ==> last_of_key(
                        after.archives@,
                        #[trigger] p.written_archives@[k] as int,
                    ) && entry_changed(before.archives@, after.archives@, p.written_archives@[k] as int)
                &&& forall|i: int|
                    #[trigger] last_of_key(after.archives@, i) && entry_changed(before.archives@, after.archives@, i)
                        ==> p.written_archives@.contains(i as usize)
            } else {
                p.deleted_archive_ids@.len() == 0 && p.written_archives@.len() == 0
            }
            &&& p.deleted_template_ids@.no_duplicates()
            &&& forall|id: i64|
                p.deleted_template_ids@.contains(id) <==> has_key(before.templates@, id) && !has_key(
                    after.templates@,
                    id,
                )
            &&& forall|a: int, b: int|
                0 <= a < b < p.written_templates@.len() ==> p.written_templates@[a] < p.written_templates@[b]
            &&& forall|k: int|
                0 <= k < p.written_templates@.len() ==> last_of_key(
                    after.templates@,
                    #[trigger] p.written_templates@[k] as int,
                ) && entry_changed(before.templates@, after.templates@, p.written_templates@[k] as int)
            &&& forall|i: int|
                #[trigger] last_of_key(after.templates@, i) && entry_changed(before.templates@, after.templates@, i)
                    ==> p.written_templates@.contains(i as usize)
            &&& p.stats.tasks_changed == capped_sum(
                p.rows.deleted_task_ids@.len() as int,
                p.rows.task_writes@.len() as int,
            )
            &&& p.stats.columns_changed == capped_sum(
                p.rows.deleted_column_ids@.len() as int,
                p.rows.column_writes@.len() as int,
            )
            &&& p.stats.archives_changed == capped_sum(
                p.deleted_archive_ids@.len() as int,
                p.written_archives@.len() as int,
            )
            &&& p.stats.templates_changed == capped_sum(
                p.deleted_template_ids@.len() as int,
                p.written_templates@.len() as int,
            )
            &&& p.stats.metadata_changed == 0
        },
        column_ids(after.columns@).no_duplicates() && evenly_spaced(after.columns@.len() as int) is Some && (
        forall|c: int|
            0 <= c < after.columns@.len() ==> task_ids_of(#[trigger] after.columns@[c].tasks@).no_duplicates()
                && evenly_spaced(after.columns@[c].tasks@.len() as int) is Some) ==> r is Ok,
{
    let column_positions = match column_positions(after, old_column_positions) {
        Ok(m) => m,
        Err(e) => return Err(e),
    };
    let positioned = carried_task_positions(before, after, old_task_positions);
    let task_positions = match positioned {
        Ok(m) => m,
        Err(e) => {
            proof {
                let c = choose|c: int|
                    0 <= c < after.columns@.len() && (task_ids_of(after.columns@[c].tasks@).no_duplicates() ==> evenly_spaced(
                        #[trigger] after.columns@[c].tasks@.len() as int,
                    ) is None);
                assert(task_ids_of(after.columns@[c].tasks@) == task_ids_of(after.columns@[c].tasks@));
            }
            return Err(e);
        },
    };
    let rows = row_changes(before, after, old_column_positions, old_task_positions, column_positions, task_positions);
    let (deleted_archive_ids, written_archives) = if include_archives {
        (removed_keys(&before.archives, &after.archives), changed_entries(&before.archives, &after.archives))
    } else {
        (Vec::new(), Vec::new())
    };
    let deleted_template_ids = removed_keys(&before.templates, &after.templates);
    let written_templates = changed_entries(&before.templates, &after.templates);
    let stats = PersistStats {
        columns_changed: rows.deleted_column_ids.len().saturating_add(rows.column_writes.len()),
        tasks_changed: rows.deleted_task_ids.len().saturating_add(rows.task_writes.len()),
        archives_changed: deleted_archive_ids.len().saturating_add(written_archives.len()),
        templates_changed: deleted_template_ids.len().saturating_add(written_templates.len()),
        metadata_changed: 0,
    };
    Ok(
        StoreDiffPlan {
            rows,
            deleted_archive_ids,
            written_archives,
            deleted_template_ids,
            written_templates,
            stats,
        },
    )
}

/// The stored value `current` of a metadata entry differs from `value`.
pub open spec fn differs(current: Option<String>, value: String) -> bool {
    match current {
        Some(c) => c@ != value@,
        None => true,
    }
}

/// The metadata entries of a board to write, in order: those whose stored
/// value `current[k]` is not `values[k]`.
pub fn changed_metadata(current: &Vec<Option<String>>, values: &Vec<String>) -> (r: Vec<usize>)
    requires
        current@.len() == values@.len(),
    ensures
        forall|a: int, b: int| 0 <= a < b < r@.len() ==> r@[a] < r@[b],
        forall|k: int| 0 <= k < r@.len() ==> r@[k] < values@.len(),
        forall|k: int| 0 <= k < values@.len() ==> (r@.contains(k as usize) <==> differs(current@[k], values@[k])),
{
    let mut r: Vec<usize> = Vec::new();
    let n = values.len();
    let mut k: usize = 0;
    while k < n
        invariant
            n == values@.len(),
            current@.len() == n,
            k <= n,
            forall|a: int| 0 <= a < r@.len() ==> r@[a] < k,
            forall|a: int, b: int| 0 <= a < b < r@.len() ==> r@[a] < r@[b],
            forall|q: int| 0 <= q < k ==> (r@.contains(q as usize) <==> differs(current@[q], values@[q])),
        decreases n - k,
    {
        let write = match &current[k] {
            Some(c) => !c.eq(&values[k]),
            None => true,
        };
        assert(write == differs(current@[k as int], values@[k as int]));
        let ghost old_r = r@;
        if write {
            r.push(k);
        }
        proof {
            assert forall|q: int| 0 <= q < k + 1 implies (r@.contains(q as usize) <==> differs(
                current@[q],
                values@[q],
            )) by {
                if r@.contains(q as usize) {
                    let a = choose|a: int| 0 <= a < r@.len() && r@[a] == q as usize;
                    if a < old_r.len() {
                        assert(old_r[a] < k);
                        assert(old_r.contains(q as usize));
                    }
                }
                if q < k && old_r.contains(q as usize) {
                    let a = choose|a: int| 0 <= a < old_r.len() && old_r[a] == q as usize;
                    assert(r@[a] == q as usize);
                }
                if q == k && write {
                    assert(r@[old_r.len() as int] == k);
                }
            }
        }
        k = k + 1;
    }
    r
}

/// Entry `k` changed from `was[k]` to `now[k]`, or is not stored yet.
pub open spec fn stale_at(was: Seq<String>, now: Seq<String>, stored: Seq<bool>, k: int) -> bool {
    was[k]@ != now[k]@ || !stored[k]
}

/// The metadata entries of the single-board store to write, in order:
/// those whose value changed from `was[k]` to `now[k]`, and those not
/// stored yet.
pub fn stale_metadata(was: &Vec<String>, now: &Vec<String>, stored: &Vec<bool>) -> (r: Vec<usize>)
    requires
        was@.len() == now@.len(),
        stored@.len() == now@.len(),
    ensures
        forall|a: int, b: int| 0 <= a < b < r@.len() ==> r@[a] < r@[b],
        forall|k: int| 0 <= k < r@.len() ==> r@[k] < now@.len(),
        forall|k: int|
            0 <= k < now@.len() ==> (r@.contains(k as usize) <==> stale_at(was@, now@, stored@, k)),
{
    let mut r: Vec<usize> = Vec::new();
    let n = now.len();
    let mut k: usize = 0;
    while k < n
        invariant
            n == now@.len(),
            was@.len() == n,
            stored@.len() == n,
            k <= n,
            forall|a: int| 0 <= a < r@.len() ==> r@[a] < k,
            forall|a: int, b: int| 0 <= a < b < r@.len() ==> r@[a] < r@[b],
            forall|q: int| 0 <= q < k ==> (r@.contains(q as usize) <==> stale_at(was@, now@, stored@, q)),
        decreases n - k,
    {
        let same = was[k].eq(&now[k]);
        let write = !same || !stored[k];
        let ghost old_r = r@;
        if write {
            r.push(k);
        }
        proof {
            assert forall|q: int| 0 <= q < k + 1 implies (r@.contains(q as usize) <==> stale_at(was@, now@, stored@, q)) by {
                if r@.contains(q as usize) {
                    let a = choose|a: int| 0 <= a < r@.len() && r@[a] == q as usize;
                    if a < old_r.len() {
                        assert(old_r[a] < k);
                        assert(old_r.contains(q as usize));
                    }
                }
                if q < k && old_r.contains(q as usize) {
                    let a = choose|a: int| 0 <= a < old_r.len() && old_r[a] == q as usize;
                    assert(r@[a] == q as usize);
                }
                if q == k && write {
                    assert(r@[old_r.len() as int] == k);
                }
            }
        }
        k = k + 1;
    }
    r
}

/// `index` as an `i64`, where it fits.
pub fn index_i64(index: usize) -> (r: Result<i64, String>)
    ensures
        r matches Ok(v) ==> v == index,
        r is Err <==> index > i64::MAX,
        r matches Err(e) ==> e@ == "out of range integral type conversion attempted"@,
{
    if (index as u64) <= 9223372036854775807u64 {
        Ok(index as i64)
    } else {
        Err(String::from_str("out of range integral type conversion attempted"))
    }
}

/// What a local change of a board records for sharing.
#[derive(Clone, Copy, Debug, PartialEq, Eq, Structural)]
pub enum LocalChange {
    /// The owner's board moves to its next revision.
    NextRevision,
    /// An editor's board has edits the owner has not seen, unless a saved
    /// conflict already says more.
    Unsent,
}

/// What a local change of a board held in `role` records: owners count
/// revisions, editors mark unsent edits, viewers may not change the board.
pub fn local_change(role: BoardRole) -> (r: Result<LocalChange, String>)
    ensures
        role == BoardRole::Owner ==> r == Ok::<LocalChange, String>(LocalChange::NextRevision),
        role == BoardRole::Editor ==> r == Ok::<LocalChange, String>(LocalChange::Unsent),
        role == BoardRole::Viewer ==> (r matches Err(e) && e@ == "This shared board is read-only"@),
{
    match role {
        BoardRole::Owner => Ok(LocalChange::NextRevision),
        BoardRole::Editor => Ok(LocalChange::Unsent),
        BoardRole::Viewer => Err(String::from_str("This shared board is read-only")),
    }
}

/// A save may go on: a change of the board's contents is refused on a
/// board this installation only views.
pub fn check_board_write(changed: bool, role: BoardRole) -> (r: Result<(), String>)
    ensures
        r is Err <==> changed && role == BoardRole::Viewer,
        r matches Err(e) ==> e@ == "This shared board is read-only"@,
{
    if changed && role == BoardRole::Viewer {
        Err(String::from_str("This shared board is read-only"))
    } else {
        Ok(())
    }
}
} // verus!
