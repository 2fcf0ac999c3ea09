//! Due-date notifications: which tasks have expired, and which of them
//! have not been announced yet.
use vstd::prelude::*;
use vstd::string::StringExecFns;
use crate::models::{Column, StoredData, Task, TaskView};
use crate::templates::copy_task;

verus! {

/// What identifies one announcement: the board, the task and the due time
/// that passed, so that a rescheduled task is announced again.
pub type NotificationKey = (i64, i64, u128);

/// The announcement key of `task` on board `board_id` at `now`: only a task
/// with an identifier and a title whose due time has passed has one.
pub open spec fn key_of(board_id: i64, task: Task, now: u128) -> Option<NotificationKey> {
    if task.due_time is Some && task.due_time.unwrap() < now && task.id >= 0 && task.title@.len() > 0 {
        Some((board_id, task.id, task.due_time.unwrap()))
    } else {
        None
    }
}

/// The announcement key of `task` on board `board_id` at `now`: see
/// [`key_of`].
pub fn notification_key(board_id: i64, task: &Task, now: u128) -> (r: Option<NotificationKey>)
    ensures
        r == key_of(board_id, *task, now),
{
    match task.due_time {
        Some(due_time) => if due_time < now && task.id >= 0 && task.title.as_str().unicode_len() > 0 {
            Some((board_id, task.id, due_time))
        } else {
            None
        },
        None => None,
    }
}

/// The title and body of the announcement that a task of a board expired.
pub fn expired_notification(board_name: &str, task_title: &str) -> (r: (String, String))
    ensures
        r.0@ == "Task Expired \u{2014} "@ + board_name@,
        r.1@ == "Task \""@ + task_title@ + "\" has passed its due date"@,
{
    let mut title = String::from_str("Task Expired \u{2014} ");
    title.append(board_name);
    let mut body = String::from_str("Task \"");
    body.append(task_title);
    body.append("\" has passed its due date");
    (title, body)
}

/// The tasks of all columns, column by column.
pub open spec fn all_tasks(cols: Seq<Column>) -> Seq<Task>
    decreases cols.len(),
{
    if cols.len() == 0 {
        Seq::empty()
    } else {
        all_tasks(cols.drop_last()) + cols.last().tasks@
    }
}

/// The tasks among `tasks` that have an announcement key, in order.
pub open spec fn expired_among(tasks: Seq<Task>, board_id: i64, now: u128) -> Seq<Task>
    decreases tasks.len(),
{
    if tasks.len() == 0 {
        Seq::empty()
    } else {
        let r = expired_among(tasks.drop_last(), board_id, now);
        if key_of(board_id, tasks.last(), now) is Some {
            r.push(tasks.last())
        } else {
            r
        }
    }
}

/// The contents of a sequence of tasks.
pub open spec fn task_views(tasks: Seq<Task>) -> Seq<TaskView> {
    tasks.map_values(|t: Task| t@)
}

proof fn lemma_expired_append(a: Seq<Task>, b: Seq<Task>, board_id: i64, now: u128)
    ensures
        expired_among(a + b, board_id, now) == expired_among(a, board_id, now) + expired_among(
            b,
            board_id,
            now,
        ),
    decreases b.len(),
{
    if b.len() == 0 {
        assert(a + b =~= a);
        assert(expired_among(a, board_id, now) + Seq::<Task>::empty() =~= expired_among(a, board_id, now));
    } else {
        lemma_expired_append(a, b.drop_last(), board_id, now);
        assert((a + b).drop_last() =~= a + b.drop_last());
        assert((a + b).last() == b.last());
        if key_of(board_id, b.last(), now) is Some {
            assert(expired_among(a, board_id, now) + expired_among(b.drop_last(), board_id, now).push(
                b.last(),
            ) =~= (expired_among(a, board_id, now) + expired_among(b.drop_last(), board_id, now)).push(
                b.last(),
            ));
        }
    }
}

/// Copies of the tasks of `data` whose due time has passed at `now`, as
/// announcements on board `board_id` would name them, in board order.
pub fn expired_tasks(data: &StoredData, board_id: i64, now: u128) -> (r: Vec<Task>)
    ensures
        task_views(r@) == task_views(expired_among(all_tasks(data.columns@), board_id, now)),
{
    let mut r: Vec<Task> = Vec::new();
    let n = data.columns.len();
    for c in 0..n
        invariant
            n == data.columns@.len(),
            task_views(r@) == task_views(
                expired_among(all_tasks(data.columns@.take(c as int)), board_id, now),
            ),
    {
        let ghost before = r@;
        let tasks = &data.columns[c].tasks;
        let m = tasks.len();
        for j in 0..m
            invariant
                m == tasks@.len(),
                task_views(r@) == task_views(before) + task_views(
                    expired_among(tasks@.take(j as int), board_id, now),
                ),
        {
            let key = notification_key(board_id, &tasks[j], now);
            let ghost r0 = r@;
            proof {
                assert(tasks@.take(j + 1).drop_last() =~= tasks@.take(j as int));
                assert(tasks@.take(j + 1).last() == tasks@[j as int]);
            }
            if key.is_some() {
                r.push(copy_task(&tasks[j]));
                proof {
                    assert(task_views(r@) =~= task_views(r0).push(tasks@[j as int]@));
                    assert(task_views(expired_among(tasks@.take(j + 1), board_id, now)) =~= task_views(
                        expired_among(tasks@.take(j as int), board_id, now),
                    ).push(tasks@[j as int]@));
                    assert(task_views(before) + task_views(
                        expired_among(tasks@.take(j as int), board_id, now),
                    ).push(tasks@[j as int]@) =~= (task_views(before) + task_views(
                        expired_among(tasks@.take(j as int), board_id, now),
                    )).push(tasks@[j as int]@));
                }
            }
        }
        proof {
            let cols = data.columns@.take(c + 1);
            assert(cols.drop_last() =~= data.columns@.take(c as int));
            assert(cols.last() == data.columns@[c as int]);
            assert(tasks@.take(m as int) =~= tasks@);
            lemma_expired_append(all_tasks(data.columns@.take(c as int)), tasks@, board_id, now);
            assert(task_views(
                expired_among(all_tasks(data.columns@.take(c as int)), board_id, now) + expired_among(
                    tasks@,
                    board_id,
                    now,
                ),
            ) =~= task_views(expired_among(all_tasks(data.columns@.take(c as int)), board_id, now))
                + task_views(expired_among(tasks@, board_id, now)));
        }
    }
    proof {
        assert(data.columns@.take(n as int) =~= data.columns@);
    }
    r
}


/// A task to announce: its key, the name of its board and its title.
pub type Candidate = (NotificationKey, Seq<char>, Seq<char>);

/// The announcements that the tasks `tasks` of board `board_id`, named
/// `name`, call for at `now`, in order.
pub open spec fn task_candidates(tasks: Seq<Task>, board_id: i64, name: Seq<char>, now: u128) -> Seq<Candidate>
    decreases tasks.len(),
{
    if tasks.len() == 0 {
        Seq::empty()
    } else {
        let r = task_candidates(tasks.drop_last(), board_id, name, now);
        match key_of(board_id, tasks.last(), now) {
            Some(k) => r.push((k, name, tasks.last().title@)),
            None => r,
        }
    }
}

/// The announcements that the boards call for at `now`, board by board;
/// each board is given by its identifier, name and data.
pub open spec fn board_candidates(boards: Seq<(i64, String, StoredData)>, now: u128) -> Seq<Candidate>
    decreases boards.len(),
{
    if boards.len() == 0 {
        Seq::empty()
    } else {
        let b = boards.last();
        board_candidates(boards.drop_last(), now) + task_candidates(all_tasks(b.2.columns@), b.0, b.1@, now)
    }
}

/// Going through `cands` in order, the keys announced so far and the
/// board names and titles to announce: a key already announced is skipped.
pub open spec fn announce(notified: Seq<NotificationKey>, cands: Seq<Candidate>) -> (Seq<NotificationKey>, Seq<
    (Seq<char>, Seq<char>),
>)
    decreases cands.len(),
{
    if cands.len() == 0 {
        (notified, Seq::empty())
    } else {
        let (keys, out) = announce(notified, cands.drop_last());
        let c = cands.last();
        if keys.contains(c.0) {
            (keys, out)
        } else {
            (keys.push(c.0), out.push((c.1, c.2)))
        }
    }
}

proof fn lemma_task_candidates_append(a: Seq<Task>, b: Seq<Task>, board_id: i64, name: Seq<char>, now: u128)
    ensures
        task_candidates(a + b, board_id, name, now) == task_candidates(a, board_id, name, now)
            + task_candidates(b, board_id, name, now),
    decreases b.len(),
{
    if b.len() == 0 {
        assert(a + b =~= a);
        assert(task_candidates(a, board_id, name, now) + Seq::<Candidate>::empty() =~= task_candidates(
            a,
            board_id,
            name,
            now,
        ));
    } else {
        lemma_task_candidates_append(a, b.drop_last(), board_id, name, now);
        assert((a + b).drop_last() =~= a + b.drop_last());
        assert((a + b).last() == b.last());
        let x = task_candidates(a, board_id, name, now);
        let y = task_candidates(b.drop_last(), board_id, name, now);
        match key_of(board_id, b.last(), now) {
            Some(k) => {
                assert(x + y.push((k, name, b.last().title@)) =~= (x + y).push((k, name, b.last().title@)));
            },
            None => {},
        }
    }
}

fn key_listed(keys: &Vec<NotificationKey>, key: NotificationKey) -> (r: bool)
    ensures
        r == keys@.contains(key),
{
    let n = keys.len();
    for i in 0..n
        invariant
            n == keys@.len(),
            forall|q: int| 0 <= q < i ==> keys@[q] != key,
    {
        let k = keys[i];
        if k.0 == key.0 && k.1 == key.1 && k.2 == key.2 {
            proof {
                assert(keys@[i as int] == key);
            }
            return true;
        }
    }
    false
}

/// The announcements that the boards call for at `now`, in order.
fn collect_candidates(boards: &Vec<(i64, String, StoredData)>, now: u128) -> (r: Vec<(NotificationKey, String, String)>)
    ensures
        r@.map_values(|c: (NotificationKey, String, String)| (c.0, c.1@, c.2@)) == board_candidates(boards@, now),
{
    let mut r: Vec<(NotificationKey, String, String)> = Vec::new();
    let nb = boards.len();
    for b in 0..nb
        invariant
            nb == boards@.len(),
            r@.map_values(|c: (NotificationKey, String, String)| (c.0, c.1@, c.2@)) == board_candidates(
                boards@.take(b as int),
                now,
            ),
    {
        let board_id = boards[b].0;
        let name = &boards[b].1;
        let cols = &boards[b].2.columns;
        let ghost before = r@.map_values(|c: (NotificationKey, String, String)| (c.0, c.1@, c.2@));
        let nc = cols.len();
        for c in 0..nc
            invariant
                nc == cols@.len(),
                r@.map_values(|c: (NotificationKey, String, String)| (c.0, c.1@, c.2@)) == before
                    + task_candidates(all_tasks(cols@.take(c as int)), board_id, name@, now),
        {
            let tasks = &cols[c].tasks;
            let nt = tasks.len();
            let ghost mid = r@.map_values(|c: (NotificationKey, String, String)| (c.0, c.1@, c.2@));
            for j in 0..nt
                invariant
                    nt == tasks@.len(),
                    r@.map_values(|c: (NotificationKey, String, String)| (c.0, c.1@, c.2@)) == mid
                        + task_candidates(tasks@.take(j as int), board_id, name@, now),
            {
                proof {
                    assert(tasks@.take(j + 1).drop_last() =~= tasks@.take(j as int));
                    assert(tasks@.take(j + 1).last() == tasks@[j as int]);
                }
                match notification_key(board_id, &tasks[j], now) {
                    Some(key) => {
                        let ghost r0 = r@;
                        r.push((key, name.clone(), tasks[j].title.clone()));
                        proof {
                            let f = |c: (NotificationKey, String, String)| (c.0, c.1@, c.2@);
                            assert(r@.map_values(f) =~= r0.map_values(f).push((key, name@, tasks@[j as int].title@)));
                            assert(mid + task_candidates(tasks@.take(j as int), board_id, name@, now).push(
                                (key, name@, tasks@[j as int].title@),
                            ) =~= (mid + task_candidates(tasks@.take(j as int), board_id, name@, now)).push(
                                (key, name@, tasks@[j as int].title@),
                            ));
                        }
                    },
                    None => {},
                }
            }
            proof {
                assert(tasks@.take(nt as int) =~= tasks@);
                assert(cols@.take(c + 1).drop_last() =~= cols@.take(c as int));
                assert(cols@.take(c + 1).last() == cols@[c as int]);
                lemma_task_candidates_append(all_tasks(cols@.take(c as int)), tasks@, board_id, name@, now);
                assert(before + task_candidates(all_tasks(cols@.take(c as int)), board_id, name@, now)
                    + task_candidates(tasks@, board_id, name@, now) =~= before + (task_candidates(
                    all_tasks(cols@.take(c as int)),
                    board_id,
                    name@,
                    now,
                ) + task_candidates(tasks@, board_id, name@, now)));
            }
        }
        proof {
            assert(cols@.take(nc as int) =~= cols@);
            assert(boards@.take(b + 1).drop_last() =~= boards@.take(b as int));
            assert(boards@.take(b + 1).last() == boards@[b as int]);
        }
    }
    proof {
        assert(boards@.take(nb as int) =~= boards@);
    }
    r
}

/// The board names and task titles to announce for the boards at `now`,
/// skipping tasks whose key is in `notified`, which receives the keys of
/// those announced: see [`announce`].
pub fn announcements(notified: &mut Vec<NotificationKey>, boards: &Vec<(i64, String, StoredData)>, now: u128) -> (r:
    Vec<(String, String)>)
    ensures
        (final(notified)@, r@.map_values(|p: (String, String)| (p.0@, p.1@))) == announce(
            old(notified)@,
            board_candidates(boards@, now),
        ),
{
    let cands = collect_candidates(boards, now);
    let ghost cs = cands@.map_values(|c: (NotificationKey, String, String)| (c.0, c.1@, c.2@));
    let mut r: Vec<(String, String)> = Vec::new();
    let n = cands.len();
    for i in 0..n
        invariant
            n == cands@.len(),
            cs == cands@.map_values(|c: (NotificationKey, String, String)| (c.0, c.1@, c.2@)),
            (notified@, r@.map_values(|p: (String, String)| (p.0@, p.1@))) == announce(
                old(notified)@,
                cs.take(i as int),
            ),
    {
        proof {
            assert(cs.take(i + 1).drop_last() =~= cs.take(i as int));
            assert(cs.take(i + 1).last() == cs[i as int]);
        }
        let key = cands[i].0;
        if !key_listed(notified, key) {
            let ghost r0 = r@;
            notified.push(key);
            r.push((cands[i].1.clone(), cands[i].2.clone()));
            proof {
                let f = |p: (String, String)| (p.0@, p.1@);
                assert(r@.map_values(f) =~= r0.map_values(f).push((cs[i as int].1, cs[i as int].2)));
            }
        }
    }
    proof {
        assert(cs.take(n as int) =~= cs);
    }
    r
}

/// Announcing never lists a key twice: keys announced before stay, and the
/// keys added were not announced before and are added once.
pub proof fn lemma_announce_keeps_keys_unique(notified: Seq<NotificationKey>, cands: Seq<Candidate>)
    requires
        notified.no_duplicates(),
    ensures
        announce(notified, cands).0.no_duplicates(),
        announce(notified, cands).0.len() == notified.len() + announce(notified, cands).1.len(),
        announce(notified, cands).0.take(notified.len() as int) == notified,
    decreases cands.len(),
{
    if cands.len() > 0 {
        lemma_announce_keeps_keys_unique(notified, cands.drop_last());
        let (keys, out) = announce(notified, cands.drop_last());
        assert(keys.push(cands.last().0).take(notified.len() as int) =~= keys.take(notified.len() as int));
    }
}

} // verus!
