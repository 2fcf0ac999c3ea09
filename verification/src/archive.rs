//! Recurring tasks and the archive: what archiving a task leaves on the
//! board, and bringing archived tasks back.
use vstd::prelude::*;
use vstd::string::StringExecFns;
use chrono::{DateTime, Duration, Months, Utc};
use crate::models::{Archive, Column, RecurrenceFrequency, StoredData, Task, TaskItem, TaskItemView, TaskView};
use crate::board::{column_at, column_index, has_column, has_task, task_at, task_position};
use crate::text::int_decimal;

verus! {

/// The earliest instant that chrono represents, -262143-01-01T00:00:00Z, in
/// milliseconds since the Unix epoch.
pub const MIN_TIMESTAMP_MILLIS: i64 = -8334601315200000;

/// The latest instant that chrono represents, +262142-12-31T23:59:59.999Z,
/// in milliseconds since the Unix epoch.
pub const MAX_TIMESTAMP_MILLIS: i64 = 8210266876799999;

/// Milliseconds in a day.
pub const DAY_MILLIS: i64 = 86400000;

/// Milliseconds in a week.
pub const WEEK_MILLIS: i64 = 604800000;

/// `ms` names an instant that chrono represents.
pub open spec fn timestamp_in_range(ms: int) -> bool {
    MIN_TIMESTAMP_MILLIS <= ms <= MAX_TIMESTAMP_MILLIS
}

/// The instant `delta` milliseconds after `ms`, if chrono represents it.
pub open spec fn shifted(ms: int, delta: int) -> Option<i64> {
    if timestamp_in_range(ms + delta) {
        Some((ms + delta) as i64)
    } else {
        None
    }
}

/// The instant `months` calendar months after `ms`, on the same day of the
/// month or the last day of a shorter month, at the same time of day, as
/// chrono's `DateTime::<Utc>::checked_add_months` computes it.
pub uninterp spec fn months_later(ms: i64, months: u32) -> Option<i64>;

/// Whether chrono's `DateTime::<Utc>::from_timestamp_millis` accepts `ms`,
/// which it does exactly for the instants it represents.
#[verifier::external_body]
fn timestamp_is_valid(ms: i64) -> (r: bool)
    ensures
        r == timestamp_in_range(ms as int),
{
    DateTime::<Utc>::from_timestamp_millis(ms).is_some()
}

/// `ms` plus `days` days with chrono's `DateTime::checked_add_signed` and
/// `Duration::days`: that instant when chrono represents it, else `None`.
#[verifier::external_body]
fn add_days(ms: i64, days: u32) -> (r: Option<i64>)
    requires
        timestamp_in_range(ms as int),
    ensures
        r == shifted(ms as int, days * DAY_MILLIS),
{
    match DateTime::<Utc>::from_timestamp_millis(ms) {
        Some(date) => match date.checked_add_signed(Duration::days(i64::from(days))) {
            Some(next) => Some(next.timestamp_millis()),
            None => None,
        },
        None => None,
    }
}

/// `ms` plus `weeks` weeks with chrono's `DateTime::checked_add_signed` and
/// `Duration::weeks`: that instant when chrono represents it, else `None`.
#[verifier::external_body]
fn add_weeks(ms: i64, weeks: u32) -> (r: Option<i64>)
    requires
        timestamp_in_range(ms as int),
    ensures
        r == shifted(ms as int, weeks * WEEK_MILLIS),
{
    match DateTime::<Utc>::from_timestamp_millis(ms) {
        Some(date) => match date.checked_add_signed(Duration::weeks(i64::from(weeks))) {
            Some(next) => Some(next.timestamp_millis()),
            None => None,
        },
        None => None,
    }
}

/// `ms` plus `months` months with chrono's `DateTime::checked_add_months`.
/// Its result is named [`months_later`]; chrono's source shows that for at
/// least one month it is a later instant that chrono represents. Which
/// instant, in calendar terms, is left unstated.
#[verifier::external_body]
fn add_months(ms: i64, months: u32) -> (r: Option<i64>)
    requires
        timestamp_in_range(ms as int),
        months >= 1,
    ensures
        r == months_later(ms, months),
        r matches Some(t) ==> t > ms && timestamp_in_range(t as int),
{
    match DateTime::<Utc>::from_timestamp_millis(ms) {
        Some(date) => match date.checked_add_months(Months::new(months)) {
            Some(next) => Some(next.timestamp_millis()),
            None => None,
        },
        None => None,
    }
}

/// The due time that an advanced instant gives, or the error for it.
pub open spec fn due_time_of(next: Option<i64>) -> Result<u128, Seq<char>> {
    match next {
        None => Err("The next recurring task date is out of range"@),
        Some(t) => if t < 0 {
            Err("The next task date is before 1970"@)
        } else {
            Ok(t as u128)
        },
    }
}

/// The due time one recurrence after `due`: `interval` (at least one) days,
/// weeks or months later.
pub open spec fn advanced_due(due: u128, frequency: RecurrenceFrequency, interval: u32) -> Result<
    u128,
    Seq<char>,
> {
    if due > i64::MAX {
        Err("Task due time is out of range"@)
    } else if !timestamp_in_range(due as int) {
        Err("Task due time is invalid"@)
    } else {
        let n: u32 = if interval < 1 {
            1
        } else {
            interval
        };
        due_time_of(
            match frequency {
                RecurrenceFrequency::Daily => shifted(due as int, n * DAY_MILLIS),
                RecurrenceFrequency::Weekly => shifted(due as int, n * WEEK_MILLIS),
                RecurrenceFrequency::Monthly => months_later(due as i64, n),
            },
        )
    }
}

/// The view of a due-time result.
pub open spec fn due_result_view(r: Result<u128, String>) -> Result<u128, Seq<char>> {
    match r {
        Ok(t) => Ok(t),
        Err(e) => Err(e@),
    }
}

/// The due time that an advanced instant gives: see [`due_time_of`].
pub fn due_time_from(next: Option<i64>) -> (r: Result<u128, String>)
    ensures
        due_result_view(r) == due_time_of(next),
{
    match next {
        None => Err(String::from_str("The next recurring task date is out of range")),
        Some(t) => if t < 0 {
            Err(String::from_str("The next task date is before 1970"))
        } else {
            Ok(t as u128)
        },
    }
}

/// A daily or weekly recurrence moves a representable due time by exactly
/// `interval` days or weeks (an interval of zero counts as one): that instant
/// where it is representable, else the out-of-range error. A monthly one
/// goes to the instant that chrono gives `interval` (at least one) months
/// later.
pub proof fn lemma_advance_moves_by_interval(due: u128, frequency: RecurrenceFrequency, interval: u32)
    requires
        due <= 8_210_266_876_799_999,
    ensures
        frequency == RecurrenceFrequency::Daily && due + (if interval == 0 { 1int } else { interval as int })
            * 86_400_000 <= 8_210_266_876_799_999 ==> advanced_due(due, frequency, interval) == Ok::<
            u128,
            Seq<char>,
        >((due + (if interval == 0 { 1int } else { interval as int }) * 86_400_000) as u128),
        frequency == RecurrenceFrequency::Daily && due + (if interval == 0 { 1int } else { interval as int })
            * 86_400_000 > 8_210_266_876_799_999 ==> advanced_due(due, frequency, interval) == Err::<
            u128,
            Seq<char>,
        >("The next recurring task date is out of range"@),
        frequency == RecurrenceFrequency::Weekly && due + (if interval == 0 { 1int } else { interval as int })
            * 604_800_000 <= 8_210_266_876_799_999 ==> advanced_due(due, frequency, interval) == Ok::<
            u128,
            Seq<char>,
        >((due + (if interval == 0 { 1int } else { interval as int }) * 604_800_000) as u128),
        frequency == RecurrenceFrequency::Weekly && due + (if interval == 0 { 1int } else { interval as int })
            * 604_800_000 > 8_210_266_876_799_999 ==> advanced_due(due, frequency, interval) == Err::<
            u128,
            Seq<char>,
        >("The next recurring task date is out of range"@),
        frequency == RecurrenceFrequency::Monthly ==> advanced_due(due, frequency, interval) == due_time_of(
            months_later(due as i64, if interval == 0 { 1u32 } else { interval }),
        ),
{
    let n: int = if interval == 0 { 1int } else { interval as int };
    assert(n * 86_400_000 >= 86_400_000) by (nonlinear_arith)
        requires
            n >= 1,
    ;
    assert(n * 604_800_000 >= 604_800_000) by (nonlinear_arith)
        requires
            n >= 1,
    ;
}

/// The due time one recurrence after `due_time`: see [`advanced_due`]. It
/// is always later than `due_time`; a daily or weekly recurrence moves it by
/// exactly `interval` (at least one) days or weeks where that instant is
/// representable.
pub fn advance_due_time(due_time: u128, frequency: RecurrenceFrequency, interval: u32) -> (r: Result<
    u128,
    String,
>)
    ensures
        due_result_view(r) == advanced_due(due_time, frequency, interval),
        r matches Ok(t) ==> t > due_time,
        frequency == RecurrenceFrequency::Daily && due_time + (if interval == 0 { 1int } else { interval as int })
            * 86_400_000 <= 8_210_266_876_799_999 ==> r == Ok::<u128, String>(
            (due_time + (if interval == 0 { 1int } else { interval as int }) * 86_400_000) as u128,
        ),
        frequency == RecurrenceFrequency::Weekly && due_time + (if interval == 0 { 1int } else { interval as int })
            * 604_800_000 <= 8_210_266_876_799_999 ==> r == Ok::<u128, String>(
            (due_time + (if interval == 0 { 1int } else { interval as int }) * 604_800_000) as u128,
        ),
        frequency == RecurrenceFrequency::Monthly && due_time <= 8_210_266_876_799_999 ==> due_result_view(r)
            == due_time_of(months_later(due_time as i64, if interval == 0 { 1u32 } else { interval })),
        due_time > 9_223_372_036_854_775_807 ==> due_result_view(r) == Err::<u128, Seq<char>>(
            "Task due time is out of range"@,
        ),
        9_223_372_036_854_775_807 >= due_time > 8_210_266_876_799_999 ==> due_result_view(r) == Err::<
            u128,
            Seq<char>,
        >("Task due time is invalid"@),
{
    proof {
        if due_time <= 8_210_266_876_799_999 {
            lemma_advance_moves_by_interval(due_time, frequency, interval);
        }
    }
    if due_time > i64::MAX as u128 {
        return Err(String::from_str("Task due time is out of range"));
    }
    let ms = due_time as i64;
    if !timestamp_is_valid(ms) {
        return Err(String::from_str("Task due time is invalid"));
    }
    let n: u32 = if interval < 1 {
        1
    } else {
        interval
    };
    let next = match frequency {
        RecurrenceFrequency::Daily => add_days(ms, n),
        RecurrenceFrequency::Weekly => add_weeks(ms, n),
        RecurrenceFrequency::Monthly => add_months(ms, n),
    };
    due_time_from(next)
}

/// The due time after `k` recurrences from `due`, or the first error.
pub open spec fn advanced_times(due: u128, frequency: RecurrenceFrequency, interval: u32, k: nat) -> Result<
    u128,
    Seq<char>,
>
    decreases k,
{
    if k == 0 {
        Ok(due)
    } else {
        match advanced_times(due, frequency, interval, (k - 1) as nat) {
            Ok(d) => advanced_due(d, frequency, interval),
            Err(e) => Err(e),
        }
    }
}

/// Advancing `due` `k` times gives `r`, and `k` is the first number of
/// steps that passes `now` or fails.
pub open spec fn first_after(
    due: u128,
    frequency: RecurrenceFrequency,
    interval: u32,
    now: u128,
    k: nat,
    r: Result<u128, Seq<char>>,
) -> bool {
    &&& k >= 1
    &&& advanced_times(due, frequency, interval, k) == r
    &&& (r matches Ok(t) ==> t > now)
    &&& forall|j: nat|
        1 <= j < k ==> (#[trigger] advanced_times(due, frequency, interval, j) matches Ok(t) && t <= now)
}

/// Advancing the due time of the recurring `task` until it passes `now`
/// gives `r`: the first due time after `now`, or the first error.
pub open spec fn recurs_to(task: Task, now: u128, r: Result<u128, Seq<char>>) -> bool {
    exists|k: nat|
        #[trigger] first_after(
            task.due_time.unwrap(),
            task.recurrence.unwrap().frequency,
            task.recurrence.unwrap().interval,
            now,
            k,
            r,
        )
}

/// The checklist with every entry unchecked.
pub open spec fn unchecked(items: Seq<TaskItemView>) -> Seq<TaskItemView> {
    items.map_values(|i: TaskItemView| TaskItemView { completed: false, ..i })
}

/// The next occurrence of `task`: identifier `id`, due at `due`, its start
/// time moved by as much as its due time (up to the largest `u128`) unless
/// it has none, and its checklist unchecked.
pub open spec fn next_occurrence(task: TaskView, id: i64, due: u128) -> TaskView {
    let shift = due - task.due_time.unwrap();
    TaskView {
        id: id,
        due_time: Some(due),
        start_time: if task.start_time == 0 {
            0
        } else if task.start_time + shift > u128::MAX {
            u128::MAX
        } else {
            (task.start_time + shift) as u128
        },
        items: unchecked(task.items),
        ..task
    }
}

/// The next occurrence of a task keeps its title, description, colour,
/// labels, recurrence and checklist entries, each entry unchecked; it takes
/// the new identifier and due time, and a start time moves by as much as the
/// due time did (saturating at the largest `u128`) unless there is none.
pub proof fn lemma_next_occurrence_keeps_task(task: TaskView, id: i64, due: u128)
    requires
        task.due_time is Some,
        due >= task.due_time.unwrap(),
    ensures
        next_occurrence(task, id, due).id == id,
        next_occurrence(task, id, due).due_time == Some(due),
        next_occurrence(task, id, due).title == task.title,
        next_occurrence(task, id, due).description == task.description,
        next_occurrence(task, id, due).color == task.color,
        next_occurrence(task, id, due).labels == task.labels,
        next_occurrence(task, id, due).recurrence == task.recurrence,
        next_occurrence(task, id, due).items.len() == task.items.len(),
        forall|k: int|
            0 <= k < task.items.len() ==> #[trigger] next_occurrence(task, id, due).items[k].id == task.items[k].id
                && next_occurrence(task, id, due).items[k].text == task.items[k].text
                && !next_occurrence(task, id, due).items[k].completed,
        task.start_time == 0 ==> next_occurrence(task, id, due).start_time == 0,
        task.start_time > 0 && task.start_time + (due - task.due_time.unwrap()) <= u128::MAX
            ==> next_occurrence(task, id, due).start_time == task.start_time + (due - task.due_time.unwrap()),
        task.start_time > 0 && task.start_time + (due - task.due_time.unwrap()) > u128::MAX
            ==> next_occurrence(task, id, due).start_time == u128::MAX,
{
}

/// The task that replaces a recurring `task` when it is archived at `now`:
/// its next occurrence after `now`, with identifier `id`. A task without a
/// recurrence or a due time has none.
pub fn next_recurring_task(task: &Task, now: u128, id: i64) -> (r: Result<Option<Task>, String>)
    ensures
        task.recurrence is None || task.due_time is None ==> r matches Ok(None),
        task.recurrence is Some && task.due_time is Some ==> !(r matches Ok(None)),
        r matches Ok(Some(next)) ==> recurs_to(*task, now, Ok(next.due_time.unwrap())) && next@
            == next_occurrence(task@, id, next.due_time.unwrap()),
        r matches Ok(Some(next)) ==> next.id == id && next.due_time is Some && next@.title == task@.title
            && next@.description == task@.description && next@.color == task@.color && next@.labels
            == task@.labels && next.recurrence == task.recurrence && next@.items.len() == task@.items.len(),
        r matches Err(e) ==> recurs_to(*task, now, Err(e@)),
{
    let recurrence = match task.recurrence {
        Some(rec) => rec,
        None => return Ok(None),
    };
    let original = match task.due_time {
        Some(due) => due,
        None => return Ok(None),
    };
    let f = recurrence.frequency;
    let n = recurrence.interval;
    let mut next_due = original;
    let ghost mut k: nat = 0;
    loop
        invariant_except_break
            forall|j: nat|
                1 <= j <= k ==> (#[trigger] advanced_times(original, f, n, j) matches Ok(t) && t <= now),
        invariant
            task.recurrence == Some(recurrence),
            task.due_time == Some(original),
            f == recurrence.frequency,
            n == recurrence.interval,
            advanced_times(original, f, n, k) == Ok::<u128, Seq<char>>(next_due),
            next_due >= original,
        ensures
            k >= 1,
            next_due > now,
            forall|j: nat|
                1 <= j < k ==> (#[trigger] advanced_times(original, f, n, j) matches Ok(t) && t <= now),
        decreases now - next_due,
    {
        let advanced = advance_due_time(next_due, f, n);
        proof {
            k = k + 1;
            assert(advanced_times(original, f, n, k) == due_result_view(advanced));
        }
        match advanced {
            Err(e) => {
                proof {
                    assert(first_after(original, f, n, now, k, Err(e@)));
                    assert(recurs_to(*task, now, Err(e@)));
                }
                return Err(e);
            },
            Ok(t) => {
                next_due = t;
            },
        }
        if next_due > now {
            break;
        }
    }
    let shift = next_due - original;
    let start_time = if task.start_time == 0 {
        0
    } else if task.start_time > u128::MAX - shift {
        u128::MAX
    } else {
        task.start_time + shift
    };
    let mut items: Vec<TaskItem> = Vec::new();
    let count = task.items.len();
    for i in 0..count
        invariant
            count == task.items@.len(),
            items@.len() == i,
            forall|q: int|
                0 <= q < i ==> (#[trigger] items@[q])@ == (TaskItemView {
                    completed: false,
                    ..task.items@[q]@
                }),
    {
        let item = &task.items[i];
        items.push(TaskItem { id: item.id.clone(), text: item.text.clone(), completed: false });
    }
    let next = Task {
        id,
        title: task.title.clone(),
        description: task.description.clone(),
        color: task.color.clone(),
        start_time,
        due_time: Some(next_due),
        labels: task.labels.clone(),
        items,
        recurrence: task.recurrence,
    };
    proof {
        assert(next.items@.map_values(|i: TaskItem| i@) =~= unchecked(task@.items));
        assert(next.labels@.map_values(|s: String| s@) =~= task@.labels);
        assert(first_after(original, f, n, now, k, Ok(next_due)));
        assert(recurs_to(*task, now, Ok(next_due)));
        assert(next@ == next_occurrence(task@, id, next_due));
    }
    Ok(Some(next))
}


/// `new` holds the columns of `old`, except that column `i` holds `tasks`.
pub open spec fn with_column_tasks(old: Seq<Column>, new: Seq<Column>, i: int, tasks: Seq<Task>) -> bool {
    &&& new.len() == old.len()
    &&& 0 <= i < old.len()
    &&& forall|c: int| 0 <= c < old.len() && c != i ==> #[trigger] new[c] == old[c]
    &&& new[i] == (Column { tasks: new[i].tasks, ..old[i] })
    &&& new[i].tasks@ == tasks
}

/// What archiving task `j` of column `i` at `time` does. The task goes to
/// the end of the archive. A recurring task is replaced in place by its
/// next occurrence, which takes the next task identifier; when that
/// identifier or that occurrence cannot be had, nothing changes and the
/// error is returned.
pub open spec fn archive_outcome(
    old: StoredData,
    new: StoredData,
    i: int,
    j: int,
    time: u128,
    r: Result<(), Seq<char>>,
) -> bool {
    let task = old.columns@[i].tasks@[j];
    let tasks = old.columns@[i].tasks@;
    if task.recurrence is Some && task.due_time is Some {
        if old.next_task_id == i64::MAX {
            r == Err::<(), Seq<char>>("Task ID range exhausted"@) && new == old
        } else {
            match r {
                Err(e) => recurs_to(task, time, Err(e)) && new == old,
                Ok(_) => {
                    let next = new.columns@[i].tasks@[j];
                    &&& with_column_tasks(old.columns@, new.columns@, i, tasks.update(j, next))
                    &&& recurs_to(task, time, Ok(next.due_time.unwrap()))
                    &&& next@ == next_occurrence(task@, old.next_task_id, next.due_time.unwrap())
                    &&& new.archives@ == old.archives@.push(Archive { time: time, task: task })
                    &&& new == (StoredData {
                        columns: new.columns,
                        archives: new.archives,
                        next_task_id: (old.next_task_id + 1) as i64,
                        ..old
                    })
                },
            }
        }
    } else {
        &&& r is Ok
        &&& with_column_tasks(old.columns@, new.columns@, i, tasks.remove(j))
        &&& new.archives@ == old.archives@.push(Archive { time: time, task: task })
        &&& new == (StoredData { columns: new.columns, archives: new.archives, ..old })
    }
}

/// The view of a result without a value.
pub open spec fn unit_result_view(r: Result<(), String>) -> Result<(), Seq<char>> {
    match r {
        Ok(_) => Ok(()),
        Err(e) => Err(e@),
    }
}

impl StoredData {
    /// Archives the task with identifier `task_id` at `time`: see
    /// [`archive_outcome`].
    pub fn archive_task(&mut self, task_id: i64, time: u128) -> (r: Result<(), String>)
        ensures
            !has_task(*old(self), task_id) ==> (r matches Err(e) && e@ == "Task not found: "@ + int_decimal(
                task_id as int,
            )) && *final(self) == *old(self),
            forall|i: int, j: int|
                #[trigger] task_at(*old(self), task_id, i, j) ==> archive_outcome(
                    *old(self),
                    *final(self),
                    i,
                    j,
                    time,
                    unit_result_view(r),
                ),
    {
        let (ci, tj) = match task_position(self, task_id) {
            Ok(p) => p,
            Err(e) => return Err(e),
        };
        let ghost old_tasks = self.columns@[ci as int].tasks@;
        let recurring = self.columns[ci].tasks[tj].recurrence.is_some()
            && self.columns[ci].tasks[tj].due_time.is_some();
        if recurring {
            if self.next_task_id == i64::MAX {
                return Err(String::from_str("Task ID range exhausted"));
            }
            let next_id = self.next_task_id;
            let next = match next_recurring_task(&self.columns[ci].tasks[tj], time, next_id) {
                Ok(Some(next)) => next,
                Ok(None) => return Ok(()),
                Err(e) => return Err(e),
            };
            self.next_task_id = next_id + 1;
            let task = self.columns[ci].tasks.remove(tj);
            self.columns[ci].tasks.insert(tj, next);
            self.archives.push(Archive { time, task });
            proof {
                assert(self.columns@[ci as int].tasks@ =~= old_tasks.update(
                    tj as int,
                    self.columns@[ci as int].tasks@[tj as int],
                ));
                assert forall|i: int, j: int| #[trigger]
                    task_at(*old(self), task_id, i, j) implies i == ci && j == tj by {
                    assert(task_at(*old(self), task_id, ci as int, tj as int));
                    if i < ci {
                        assert(old(self).columns@[i].tasks@[j].id == task_id);
                    } else if ci < i {
                        assert(old(self).columns@[ci as int].tasks@[tj as int].id == task_id);
                    } else if j < tj {
                    } else if tj < j {
                    }
                }
            }
            Ok(())
        } else {
            let task = self.columns[ci].tasks.remove(tj);
            self.archives.push(Archive { time, task });
            proof {
                assert(self.columns@[ci as int].tasks@ =~= old_tasks.remove(tj as int));
                assert forall|i: int, j: int| #[trigger]
                    task_at(*old(self), task_id, i, j) implies i == ci && j == tj by {
                    assert(task_at(*old(self), task_id, ci as int, tj as int));
                    if i < ci {
                        assert(old(self).columns@[i].tasks@[j].id == task_id);
                    } else if ci < i {
                        assert(old(self).columns@[ci as int].tasks@[tj as int].id == task_id);
                    } else if j < tj {
                    } else if tj < j {
                    }
                }
            }
            Ok(())
        }
    }
}


/// The task has a recurrence and a due time, so archiving it schedules its
/// next occurrence.
pub open spec fn is_recurring(t: Task) -> bool {
    t.recurrence is Some && t.due_time is Some
}

/// The recurring tasks among `tasks`, in order.
pub open spec fn recurring_of(tasks: Seq<Task>) -> Seq<Task>
    decreases tasks.len(),
{
    if tasks.len() == 0 {
        Seq::empty()
    } else {
        let r = recurring_of(tasks.drop_last());
        if is_recurring(tasks.last()) {
            r.push(tasks.last())
        } else {
            r
        }
    }
}

/// The recurring task `t` has a next occurrence after `now`.
pub open spec fn recurrence_succeeds(t: Task, now: u128) -> bool {
    exists|d: u128| #[trigger] recurs_to(t, now, Ok(d))
}

/// What archiving every task of column `i` at `time` does. All its tasks go
/// to the end of the archive in order, and the column then holds the next
/// occurrences of its recurring tasks, in order, numbered from the next
/// task identifier. When an identifier or an occurrence cannot be had,
/// nothing changes and the first such error is returned.
pub open spec fn archive_all_outcome(
    old: StoredData,
    new: StoredData,
    i: int,
    time: u128,
    r: Result<(), Seq<char>>,
) -> bool {
    let tasks = old.columns@[i].tasks@;
    let rs = recurring_of(tasks);
    let base = old.next_task_id;
    match r {
        Ok(_) => {
            let next = new.columns@[i].tasks@;
            &&& base + rs.len() <= i64::MAX
            &&& with_column_tasks(old.columns@, new.columns@, i, next)
            &&& next.len() == rs.len()
            &&& forall|q: int|
                0 <= q < rs.len() ==> recurs_to(rs[q], time, Ok(#[trigger] next[q].due_time.unwrap()))
                    && next[q]@ == next_occurrence(rs[q]@, (base + q) as i64, next[q].due_time.unwrap())
            &&& new.archives@ == old.archives@ + tasks.map_values(|t: Task| Archive { time: time, task: t })
            &&& new == (StoredData {
                columns: new.columns,
                archives: new.archives,
                next_task_id: (base + rs.len()) as i64,
                ..old
            })
        },
        Err(e) => {
            &&& new == old
            &&& exists|q: int|
                0 <= q < rs.len() && (forall|p: int|
                    0 <= p < q ==> base + p < i64::MAX && recurrence_succeeds(#[trigger] rs[p], time)) && (
                if base + q == i64::MAX {
                    e == "Task ID range exhausted"@
                } else {
                    recurs_to(rs[q], time, Err(e))
                })
        },
    }
}

proof fn lemma_filter_step(tasks: Seq<Task>, q: int)
    requires
        0 <= q < tasks.len(),
    ensures
        recurring_of(tasks.take(q + 1)) == if is_recurring(tasks[q]) {
            recurring_of(tasks.take(q)).push(tasks[q])
        } else {
            recurring_of(tasks.take(q))
        },
{
    assert(tasks.take(q + 1).drop_last() =~= tasks.take(q));
    assert(tasks.take(q + 1).last() == tasks[q]);
}

impl StoredData {
    /// Archives every task of the column with identifier `column_id` at
    /// `time`: see [`archive_all_outcome`].
    pub fn archive_all_tasks(&mut self, column_id: i64, time: u128) -> (r: Result<(), String>)
        ensures
            !has_column(*old(self), column_id) ==> (r matches Err(e) && e@ == "Column not found: "@
                + int_decimal(column_id as int)) && *final(self) == *old(self),
            forall|i: int|
                #[trigger] column_at(*old(self), column_id, i) ==> archive_all_outcome(
                    *old(self),
                    *final(self),
                    i,
                    time,
                    unit_result_view(r),
                ),
    {
        let ci = match column_index(self, column_id) {
            Ok(i) => i,
            Err(e) => return Err(e),
        };
        proof {
            lemma_column_at_unique(*self, column_id, ci as int);
            assert(has_column(*self, column_id));
        }
        let ghost tasks = self.columns@[ci as int].tasks@;
        let ghost rs = recurring_of(tasks);
        let base = self.next_task_id;
        let n = self.columns[ci].tasks.len();
        let mut next_tasks: Vec<Task> = Vec::new();
        let mut id = base;
        for q in 0..n
            invariant
                n == tasks.len(),
                tasks == self.columns@[ci as int].tasks@,
                rs == recurring_of(tasks),
                column_at(*old(self), column_id, ci as int),
                has_column(*old(self), column_id),
                *self == *old(self),
                ci < self.columns@.len(),
                base == self.next_task_id,
                id == base + next_tasks@.len(),
                next_tasks@.len() == recurring_of(tasks.take(q as int)).len(),
                forall|p: int|
                    0 <= p < next_tasks@.len() ==> {
                        let src = recurring_of(tasks.take(q as int))[p];
                        &&& recurs_to(src, time, Ok(#[trigger] next_tasks@[p].due_time.unwrap()))
                        &&& next_tasks@[p]@ == next_occurrence(
                            src@,
                            (base + p) as i64,
                            next_tasks@[p].due_time.unwrap(),
                        )
                    },
        {
            proof {
                lemma_filter_step(tasks, q as int);
            }
            let task = &self.columns[ci].tasks[q];
            if task.recurrence.is_some() && task.due_time.is_some() {
                let ghost prefix = recurring_of(tasks.take(q as int));
                proof {
                    assert(rs.len() >= prefix.len() + 1) by {
                        lemma_filter_prefix(tasks, q as int + 1);
                    }
                }
                if id == i64::MAX {
                    proof {
                        lemma_filter_prefix(tasks, q as int + 1);
                        let k = prefix.len() as int;
                        assert(rs[k] == tasks[q as int]);
                        assert forall|p: int| 0 <= p < k implies base + p < i64::MAX && recurrence_succeeds(
                            #[trigger] rs[p],
                            time,
                        ) by {
                            assert(rs[p] == prefix[p]);
                            assert(recurs_to(prefix[p], time, Ok(next_tasks@[p].due_time.unwrap())));
                        }
                        assert(archive_all_outcome(
                            *old(self),
                            *self,
                            ci as int,
                            time,
                            Err("Task ID range exhausted"@),
                        ));
                    }
                    return Err(String::from_str("Task ID range exhausted"));
                }
                match next_recurring_task(task, time, id) {
                    Ok(Some(next)) => {
                        next_tasks.push(next);
                        id = id + 1;
                    },
                    Ok(None) => {},
                    Err(e) => {
                        proof {
                            lemma_filter_prefix(tasks, q as int + 1);
                            let k = prefix.len() as int;
                            assert(rs[k] == tasks[q as int]);
                            assert forall|p: int| 0 <= p < k implies base + p < i64::MAX
                                && recurrence_succeeds(#[trigger] rs[p], time) by {
                                assert(rs[p] == prefix[p]);
                                assert(recurs_to(prefix[p], time, Ok(next_tasks@[p].due_time.unwrap())));
                            }
                            assert(archive_all_outcome(*old(self), *self, ci as int, time, Err(e@)));
                        }
                        return Err(e);
                    },
                }
            }
        }
        proof {
            assert(tasks.take(n as int) =~= tasks);
        }
        let mut moved: Vec<Task> = Vec::new();
        std::mem::swap(&mut moved, &mut self.columns[ci].tasks);
        self.columns[ci].tasks = next_tasks;
        self.next_task_id = id;
        let ghost before = self.archives@;
        let ghost pre = *self;
        let ghost k: int = 0;
        proof {
            assert(pre.columns@ =~= old(self).columns@.update(ci as int, pre.columns@[ci as int]));
        }
        while moved.len() > 0
            invariant
                *self == (StoredData { archives: self.archives, ..pre }),
                0 <= k <= tasks.len(),
                moved@ == tasks.skip(k),
                self.archives@ == before + tasks.take(k).map_values(|t: Task| Archive { time: time, task: t }),
            decreases moved@.len(),
        {
            let task = moved.remove(0);
            self.archives.push(Archive { time, task });
            proof {
                assert(tasks.take(k + 1) =~= tasks.take(k).push(tasks[k]));
                assert(tasks.take(k + 1).map_values(|t: Task| Archive { time: time, task: t }) =~= tasks.take(
                    k,
                ).map_values(|t: Task| Archive { time: time, task: t }).push(
                    Archive { time: time, task: tasks[k] },
                ));
                assert(tasks.skip(k + 1) =~= tasks.skip(k).drop_first());
                k = k + 1;
            }
        }
        proof {
            assert(tasks.take(k) =~= tasks);
        }
        Ok(())
    }
}

proof fn lemma_filter_prefix(tasks: Seq<Task>, q: int)
    requires
        0 <= q <= tasks.len(),
    ensures
        recurring_of(tasks.take(q)).len() <= recurring_of(tasks).len(),
        forall|p: int|
            0 <= p < recurring_of(tasks.take(q)).len() ==> recurring_of(tasks.take(q))[p] == recurring_of(tasks)[p],
    decreases tasks.len() - q,
{
    if q == tasks.len() {
        assert(tasks.take(q) =~= tasks);
    } else {
        lemma_filter_prefix(tasks, q + 1);
        lemma_filter_step(tasks, q);
    }
}


/// A column identifier has at most one first position.
pub proof fn lemma_column_at_unique(d: StoredData, id: i64, i: int)
    requires
        column_at(d, id, i),
    ensures
        forall|k: int| #[trigger] column_at(d, id, k) ==> k == i,
{
    assert forall|k: int| #[trigger] column_at(d, id, k) implies k == i by {
        if k < i {
            assert(d.columns@[k].id == id);
        } else if i < k {
            assert(d.columns@[i].id == id);
        }
    }
}


/// The first archive entry of the task with identifier `id` is entry `a`.
pub open spec fn archive_at(d: StoredData, id: i64, a: int) -> bool {
    0 <= a < d.archives@.len() && d.archives@[a].task.id == id && forall|k: int|
        0 <= k < a ==> #[trigger] d.archives@[k].task.id != id
}

/// The archive holds a task with identifier `id`.
pub open spec fn has_archived(d: StoredData, id: i64) -> bool {
    exists|a: int| 0 <= a < d.archives@.len() && #[trigger] d.archives@[a].task.id == id
}

/// What restoring archive entry `a` into column `i` does: the entry leaves
/// the archive and its task goes to the end of the column; nothing else
/// changes.
pub open spec fn restore_outcome(old: StoredData, new: StoredData, i: int, a: int) -> bool {
    &&& with_column_tasks(old.columns@, new.columns@, i, old.columns@[i].tasks@.push(old.archives@[a].task))
    &&& new.archives@ == old.archives@.remove(a)
    &&& new == (StoredData { columns: new.columns, archives: new.archives, ..old })
}

/// Restoring undoes archiving: after a task that is not recurring, and
/// whose identifier the archive did not hold, is archived, restoring it
/// into its column finds that column and that entry, gives the archive back
/// as it was, and puts the task at the end of the column after its other
/// tasks, in their order; nothing else changes.
pub proof fn lemma_restore_undoes_archive(
    d0: StoredData,
    d1: StoredData,
    d2: StoredData,
    column_id: i64,
    i: int,
    j: int,
    time: u128,
)
    requires
        column_at(d0, column_id, i),
        0 <= j < d0.columns@[i].tasks@.len(),
        !is_recurring(d0.columns@[i].tasks@[j]),
        !has_archived(d0, d0.columns@[i].tasks@[j].id),
        archive_outcome(d0, d1, i, j, time, Ok(())),
        restore_outcome(d1, d2, i, d0.archives@.len() as int),
    ensures
        column_at(d1, column_id, i),
        archive_at(d1, d0.columns@[i].tasks@[j].id, d0.archives@.len() as int),
        d2.archives@ == d0.archives@,
        with_column_tasks(
            d0.columns@,
            d2.columns@,
            i,
            d0.columns@[i].tasks@.remove(j).push(d0.columns@[i].tasks@[j]),
        ),
        d2 == (StoredData { columns: d2.columns, archives: d2.archives, ..d0 }),
{
    let id = d0.columns@[i].tasks@[j].id;
    let n = d0.archives@.len() as int;
    assert forall|k: int| 0 <= k < i implies #[trigger] d1.columns@[k].id != column_id by {
        assert(d1.columns@[k] == d0.columns@[k]);
    }
    assert forall|k: int| 0 <= k < n implies #[trigger] d1.archives@[k].task.id != id by {
        assert(d1.archives@[k] == d0.archives@[k]);
        if d0.archives@[k].task.id == id {
            assert(has_archived(d0, id));
        }
    }
    assert(d2.archives@ =~= d0.archives@);
    assert forall|c: int| 0 <= c < d0.columns@.len() && c != i implies #[trigger] d2.columns@[c] == d0.columns@[c] by {
        assert(d1.columns@[c] == d0.columns@[c]);
    }
}

impl StoredData {
    /// Takes the task with identifier `task_id` out of the archive and puts
    /// it at the end of the column with identifier `column_id`.
    pub fn unarchive_task(&mut self, column_id: i64, task_id: i64) -> (r: Result<(), String>)
        ensures
            !has_column(*old(self), column_id) ==> (r matches Err(e) && e@ == "Column not found: "@
                + int_decimal(column_id as int)) && *final(self) == *old(self),
            has_column(*old(self), column_id) && !has_archived(*old(self), task_id) ==> (r matches Err(e)
                && e@ == "Archived task not found: "@ + int_decimal(task_id as int)) && *final(self)
                == *old(self),
            forall|i: int, a: int|
                #[trigger] column_at(*old(self), column_id, i) && #[trigger] archive_at(
                    *old(self),
                    task_id,
                    a,
                ) ==> r is Ok && restore_outcome(*old(self), *final(self), i, a),
    {
        let ci = match column_index(self, column_id) {
            Ok(i) => i,
            Err(e) => return Err(e),
        };
        proof {
            lemma_column_at_unique(*self, column_id, ci as int);
        }
        let n = self.archives.len();
        let mut a: usize = 0;
        while a < n && self.archives[a].task.id != task_id
            invariant
                n == self.archives@.len(),
                a <= n,
                forall|k: int| 0 <= k < a ==> #[trigger] self.archives@[k].task.id != task_id,
            decreases n - a,
        {
            a = a + 1;
        }
        if a == n {
            return Err(crate::board::message_with_id("Archived task not found: ", task_id));
        }
        proof {
            assert(archive_at(*self, task_id, a as int));
            assert forall|b: int| #[trigger] archive_at(*old(self), task_id, b) implies b == a by {
                if b < a {
                    assert(self.archives@[b].task.id == task_id);
                } else if a < b {
                    assert(self.archives@[a as int].task.id == task_id);
                }
            }
        }
        let archive = self.archives.remove(a);
        self.columns[ci].tasks.push(archive.task);
        Ok(())
    }
}

} // verus!
