//! Stable ordering of a column's tasks by due time.
use vstd::prelude::*;
use crate::models::{ColumnSort, Column, StoredData, Task};

verus! {

/// `a` may come before `b`: due times in ascending (or descending) order,
/// and tasks without a due time after every task with one.
pub open spec fn due_le(asc: bool, a: Option<u128>, b: Option<u128>) -> bool {
    match (a, b) {
        (Some(x), Some(y)) => if asc { x <= y } else { y <= x },
        (Some(_), None) => true,
        (None, Some(_)) => false,
        (None, None) => true,
    }
}

/// The tasks are in due-time order.
pub open spec fn sorted_by_due(ts: Seq<Task>, asc: bool) -> bool {
    forall|a: int, b: int| 0 <= a < b < ts.len() ==> due_le(asc, #[trigger] ts[a].due_time, #[trigger] ts[b].due_time)
}

/// `p` is a permutation of `0..n`.
pub open spec fn is_permutation(p: Seq<int>, n: int) -> bool {
    &&& p.len() == n
    &&& forall|k: int| 0 <= k < n ==> 0 <= #[trigger] p[k] < n
    &&& forall|a: int, b: int| 0 <= a < b < n ==> #[trigger] p[a] != #[trigger] p[b]
}

/// `new` holds the tasks of `old` in due-time order, and tasks whose due
/// times tie keep their relative order.
pub open spec fn stable_due_sort(old: Seq<Task>, new: Seq<Task>, asc: bool) -> bool {
    exists|p: Seq<int>|
        {
            &&& is_permutation(p, old.len() as int)
            &&& new.len() == old.len()
            &&& forall|k: int| 0 <= k < new.len() ==> #[trigger] new[k] == old[p[k]]
            &&& sorted_by_due(new, asc)
            &&& forall|a: int, b: int|
                0 <= a < b < new.len() && due_le(asc, #[trigger] new[b].due_time, #[trigger] new[a].due_time)
                    ==> p[a] < p[b]
        }
}

proof fn lemma_due_le_total(asc: bool, a: Option<u128>, b: Option<u128>)
    ensures
        due_le(asc, a, b) || due_le(asc, b, a),
{
}

proof fn lemma_due_le_trans(asc: bool, a: Option<u128>, b: Option<u128>, c: Option<u128>)
    requires
        due_le(asc, a, b),
        due_le(asc, b, c),
    ensures
        due_le(asc, a, c),
{
}

fn due_before_or_tied(asc: bool, a: Option<u128>, b: Option<u128>) -> (r: bool)
    ensures
        r == due_le(asc, a, b),
{
    match (a, b) {
        (Some(x), Some(y)) => if asc { x <= y } else { y <= x },
        (Some(_), None) => true,
        (None, Some(_)) => false,
        (None, None) => true,
    }
}

/// Sorts `tasks` by due time, keeping ties in their order.
pub fn sort_tasks_by_due(tasks: &mut Vec<Task>, asc: bool)
    ensures
        stable_due_sort(old(tasks)@, final(tasks)@, asc),
{
    let ghost orig = tasks@;
    let n = tasks.len();
    let ghost mut perm: Seq<int> = Seq::new(n as nat, |k: int| k);
    let mut i: usize = 0;
    while i < n
        invariant
            n == tasks.len(),
            n == orig.len(),
            i <= n,
            is_permutation(perm, n as int),
            forall|k: int| 0 <= k < n ==> #[trigger] tasks@[k] == orig[perm[k]],
            forall|k: int| i <= k < n ==> #[trigger] perm[k] == k,
            forall|k: int| 0 <= k < i ==> #[trigger] perm[k] < i,
            forall|a: int, b: int| 0 <= a < b < i ==> due_le(asc, #[trigger] tasks@[a].due_time, #[trigger] tasks@[b].due_time),
            forall|a: int, b: int|
                0 <= a < b < i && due_le(asc, #[trigger] tasks@[b].due_time, #[trigger] tasks@[a].due_time)
                    ==> perm[a] < perm[b],
        decreases n - i,
    {
        let mut j: usize = i;
        while j > 0 && !due_before_or_tied(asc, tasks[j - 1].due_time, tasks[j].due_time)
            invariant
                n == tasks.len(),
                n == orig.len(),
                j <= i < n,
                is_permutation(perm, n as int),
                forall|k: int| 0 <= k < n ==> #[trigger] tasks@[k] == orig[perm[k]],
                forall|k: int| i < k < n ==> #[trigger] perm[k] == k,
                perm[j as int] == i,
                forall|k: int| 0 <= k <= i && k != j ==> #[trigger] perm[k] < i,
                forall|a: int, b: int|
                    0 <= a < b <= i && a != j && b != j ==> due_le(asc, #[trigger] tasks@[a].due_time, #[trigger] tasks@[b].due_time),
                forall|b: int| j < b <= i ==> !due_le(asc, #[trigger] tasks@[b].due_time, tasks@[j as int].due_time),
                forall|a: int, b: int|
                    0 <= a < b <= i && a != j && b != j && due_le(asc, #[trigger] tasks@[b].due_time, #[trigger] tasks@[a].due_time)
                        ==> perm[a] < perm[b],
            decreases j,
        {
            let ghost before = tasks@;
            let ghost x = tasks@[j as int].due_time;
            let t = tasks.remove(j);
            tasks.insert(j - 1, t);
            proof {
                assert(tasks@ =~= before.update(j - 1, before[j as int]).update(j as int, before[j - 1]));
                lemma_due_le_total(asc, before[j - 1].due_time, x);
                assert forall|b: int| j - 1 < b <= i implies !due_le(asc, #[trigger] tasks@[b].due_time, tasks@[j - 1].due_time) by {
                    if b > j {
                        if due_le(asc, tasks@[b].due_time, x) {
                        }
                    }
                }
                assert forall|a: int, b: int|
                    0 <= a < b <= i && a != j - 1 && b != j - 1 implies due_le(asc, #[trigger] tasks@[a].due_time, #[trigger] tasks@[b].due_time) by {
                    if a == j {
                        assert(tasks@[a] == before[j - 1]);
                        assert(!due_le(asc, before[b].due_time, x));
                        lemma_due_le_total(asc, before[b].due_time, x);
                        lemma_due_le_total(asc, before[j - 1].due_time, x);
                        assert(due_le(asc, x, before[b].due_time));
                        assert(due_le(asc, x, before[j - 1].due_time));
                        if j + 1 <= i && b > j {
                            assert(due_le(asc, before[j - 1].due_time, before[b].due_time));
                        }
                    } else if b == j {
                        assert(tasks@[b] == before[j - 1]);
                        assert(due_le(asc, before[a].due_time, before[j - 1].due_time));
                    }
                }
                perm = perm.update(j - 1, perm[j as int]).update(j as int, perm[j - 1]);
                assert forall|a: int, b: int|
                    0 <= a < b <= i && a != j - 1 && b != j - 1 && due_le(asc, #[trigger] tasks@[b].due_time, #[trigger] tasks@[a].due_time)
                        implies perm[a] < perm[b] by {
                    if a == j {
                        assert(due_le(asc, x, before[b].due_time) || !due_le(asc, before[b].due_time, x));
                    }
                }
            }
            j = j - 1;
        }
        proof {
            if j > 0 {
                assert(due_le(asc, tasks@[j - 1].due_time, tasks@[j as int].due_time));
            }
            assert forall|a: int, b: int| 0 <= a < b < i + 1 implies due_le(asc, #[trigger] tasks@[a].due_time, #[trigger] tasks@[b].due_time) by {
                if b == j {
                    if a < j - 1 {
                        lemma_due_le_trans(asc, tasks@[a].due_time, tasks@[j - 1].due_time, tasks@[b].due_time);
                    }
                } else if a == j {
                    lemma_due_le_total(asc, tasks@[b].due_time, tasks@[a].due_time);
                }
            }
            assert forall|a: int, b: int|
                0 <= a < b < i + 1 && due_le(asc, #[trigger] tasks@[b].due_time, #[trigger] tasks@[a].due_time)
                    implies perm[a] < perm[b] by {
                if b == j {
                } else if a == j {
                }
            }
        }
        i = i + 1;
    }
    proof {
        assert(is_permutation(perm, orig.len() as int));
    }
}

impl StoredData {
    /// Puts the tasks of every column that is sorted by due date in that
    /// order. Columns in custom order keep theirs.
    pub fn sort_column_tasks(&mut self)
        ensures
            final(self).columns@.len() == old(self).columns@.len(),
            forall|i: int|
                0 <= i < old(self).columns@.len() ==> {
                    let c = old(self).columns@[i];
                    let d = #[trigger] final(self).columns@[i];
                    match c.sort_order {
                        ColumnSort::Custom => d == c,
                        ColumnSort::DueDateAsc => d == (Column { tasks: d.tasks, ..c })
                            && stable_due_sort(c.tasks@, d.tasks@, true),
                        ColumnSort::DueDateDesc => d == (Column { tasks: d.tasks, ..c })
                            && stable_due_sort(c.tasks@, d.tasks@, false),
                    }
                },
            *final(self) == (StoredData { columns: final(self).columns, ..*old(self) }),
    {
        let n = self.columns.len();
        for i in 0..n
            invariant
                n == self.columns.len(),
                n == old(self).columns@.len(),
                forall|k: int|
                    0 <= k < i ==> {
                        let c = old(self).columns@[k];
                        let d = #[trigger] self.columns@[k];
                        match c.sort_order {
                            ColumnSort::Custom => d == c,
                            ColumnSort::DueDateAsc => d == (Column { tasks: d.tasks, ..c })
                                && stable_due_sort(c.tasks@, d.tasks@, true),
                            ColumnSort::DueDateDesc => d == (Column { tasks: d.tasks, ..c })
                                && stable_due_sort(c.tasks@, d.tasks@, false),
                        }
                    },
                forall|k: int| i <= k < n ==> #[trigger] self.columns@[k] == old(self).columns@[k],
                *self == (StoredData { columns: self.columns, ..*old(self) }),
        {
            match self.columns[i].sort_order {
                ColumnSort::Custom => {},
                ColumnSort::DueDateAsc => sort_tasks_by_due(&mut self.columns[i].tasks, true),
                ColumnSort::DueDateDesc => sort_tasks_by_due(&mut self.columns[i].tasks, false),
            }
        }
    }
}

} // verus!
