//! Task templates: tasks saved under a name, without dates, recurrence or
//! progress, to create new tasks from.
use vstd::prelude::*;
use vstd::string::StringExecFns;
use crate::archive::unchecked;
use crate::board::{has_task, message_with_id, task_at, task_position};
use crate::models::{StoredData, Task, TaskItem, TaskItemView, TaskTemplate, TaskView};
use crate::text::{int_decimal, trim, trim_str};
use crate::labels::{lemma_precedence_antisymmetric, lemma_precedence_transitive, text_less};
use crate::update::{text_precedence, text_precedence_of};

verus! {

/// A copy of `task` with the same contents.
pub fn copy_task(task: &Task) -> (r: Task)
    ensures
        r@ == task@,
{
    let mut items: Vec<TaskItem> = Vec::new();
    let count = task.items.len();
    for i in 0..count
        invariant
            count == task.items@.len(),
            items@.len() == i,
            forall|q: int| 0 <= q < i ==> (#[trigger] items@[q])@ == task.items@[q]@,
    {
        let item = &task.items[i];
        items.push(TaskItem { id: item.id.clone(), text: item.text.clone(), completed: item.completed });
    }
    let r = Task {
        id: task.id,
        title: task.title.clone(),
        description: task.description.clone(),
        color: task.color.clone(),
        start_time: task.start_time,
        due_time: task.due_time,
        labels: task.labels.clone(),
        items,
        recurrence: task.recurrence,
    };
    proof {
        assert(r.items@.map_values(|i: TaskItem| i@) =~= task@.items);
        assert(r.labels@.map_values(|s: String| s@) =~= task@.labels);
    }
    r
}

/// The contents of a template.
pub open spec fn template_view(t: TaskTemplate) -> (i64, Seq<char>, TaskView) {
    (t.id, t.name@, t.task@)
}

/// A copy of `template` with the same contents.
pub fn copy_template(template: &TaskTemplate) -> (r: TaskTemplate)
    ensures
        template_view(r) == template_view(*template),
{
    TaskTemplate { id: template.id, name: template.name.clone(), task: copy_task(&template.task) }
}

/// The task as a template keeps it: no identifier, no start or due time,
/// no recurrence, and its checklist unchecked.
pub open spec fn template_task(task: TaskView) -> TaskView {
    TaskView {
        id: -1i64,
        start_time: 0,
        due_time: None,
        recurrence: None,
        items: unchecked(task.items),
        ..task
    }
}

/// A template keeps the task's title, description, colour, labels and
/// checklist entries, with every entry unchecked; it drops the identifier,
/// the start and due times and the recurrence.
pub proof fn lemma_template_keeps_task(task: TaskView)
    ensures
        template_task(task).title == task.title,
        template_task(task).description == task.description,
        template_task(task).color == task.color,
        template_task(task).labels == task.labels,
        template_task(task).items.len() == task.items.len(),
        forall|k: int|
            0 <= k < task.items.len() ==> #[trigger] template_task(task).items[k].id == task.items[k].id
                && template_task(task).items[k].text == task.items[k].text && !template_task(task).items[k].completed,
        template_task(task).id == -1,
        template_task(task).start_time == 0,
        template_task(task).due_time is None,
        template_task(task).recurrence is None,
{
}

/// `task` as a template keeps it: see [`template_task`] and
/// [`lemma_template_keeps_task`].
pub fn normalize_template_task(task: Task) -> (r: Task)
    ensures
        r@ == template_task(task@),
        r@.title == task@.title && r@.description == task@.description && r@.color == task@.color,
        r@.labels == task@.labels,
        r@.items.len() == task@.items.len(),
        forall|k: int|
            0 <= k < task@.items.len() ==> #[trigger] r@.items[k].id == task@.items[k].id && r@.items[k].text
                == task@.items[k].text && !r@.items[k].completed,
        r.id == -1 && r.start_time == 0 && r.due_time is None && r.recurrence is None,
{
    proof {
        lemma_template_keeps_task(task@);
    }
    let mut task = task;
    task.id = -1;
    task.start_time = 0;
    task.due_time = None;
    task.recurrence = None;
    let ghost before = task.items@;
    let ghost pre = task;
    let n = task.items.len();
    for i in 0..n
        invariant
            task == (Task { items: task.items, ..pre }),
            n == task.items@.len(),
            before.len() == n,
            forall|q: int|
                0 <= q < i ==> (#[trigger] task.items@[q])@ == (TaskItemView {
                    completed: false,
                    ..before[q]@
                }),
            forall|q: int| i <= q < n ==> #[trigger] task.items@[q] == before[q],
    {
        task.items[i].completed = false;
    }
    proof {
        assert(task.items@.map_values(|i: TaskItem| i@) =~= unchecked(
            before.map_values(|i: TaskItem| i@),
        ));
    }
    task
}

/// A copy of the first task, column by column, with identifier `task_id`.
pub fn find_task(data: &StoredData, task_id: i64) -> (r: Result<Task, String>)
    ensures
        r is Err <==> !has_task(*data, task_id),
        !has_task(*data, task_id) ==> (r matches Err(e) && e@ == "Task not found: "@ + int_decimal(
            task_id as int,
        )),
        forall|i: int, j: int| #[trigger]
            task_at(*data, task_id, i, j) ==> (r matches Ok(t) && t@ == data.columns@[i].tasks@[j]@),
{
    let (c, j) = match task_position(data, task_id) {
        Ok(p) => p,
        Err(e) => return Err(e),
    };
    proof {
        crate::board::lemma_task_at_unique(*data, task_id, c as int, j as int);
    }
    Ok(copy_task(&data.columns[c].tasks[j]))
}

/// The first template with identifier `id` is template `k`.
pub open spec fn template_at(d: StoredData, id: i64, k: int) -> bool {
    0 <= k < d.templates@.len() && d.templates@[k].id == id && forall|q: int|
        0 <= q < k ==> #[trigger] d.templates@[q].id != id
}

/// Some template has identifier `id`.
pub open spec fn has_template(d: StoredData, id: i64) -> bool {
    exists|k: int| 0 <= k < d.templates@.len() && #[trigger] d.templates@[k].id == id
}

fn template_index(data: &StoredData, template_id: i64) -> (r: Result<usize, String>)
    ensures
        r matches Ok(k) ==> template_at(*data, template_id, k as int) && forall|q: int| #[trigger]
            template_at(*data, template_id, q) ==> q == k,
        r is Err <==> !has_template(*data, template_id),
        r matches Err(e) ==> e@ == "Template not found: "@ + int_decimal(template_id as int),
{
    let n = data.templates.len();
    for k in 0..n
        invariant
            n == data.templates@.len(),
            forall|q: int| 0 <= q < k ==> #[trigger] data.templates@[q].id != template_id,
    {
        if data.templates[k].id == template_id {
            proof {
                assert forall|q: int| #[trigger] template_at(*data, template_id, q) implies q == k by {
                    if q < k {
                    } else if k < q {
                        assert(data.templates@[k as int].id == template_id);
                    }
                }
            }
            return Ok(k);
        }
    }
    Err(message_with_id("Template not found: ", template_id))
}


/// A template as a board's shared document stores it: its place in the
/// list, its key in the document, and the template.
pub type PlacedTemplate = (usize, String, TaskTemplate);

/// The place and key of a stored template.
pub open spec fn place_key(e: PlacedTemplate) -> (usize, Seq<char>) {
    (e.0, e.1@)
}

/// Key `a` comes before key `b`: by place, then by the key's text.
pub open spec fn key_before(a: (usize, Seq<char>), b: (usize, Seq<char>)) -> bool {
    a.0 < b.0 || (a.0 == b.0 && text_less(a.1, b.1))
}

/// Entry `i` is the last of `entries` with key `k`.
pub open spec fn last_with_key(entries: Seq<PlacedTemplate>, k: (usize, Seq<char>), i: int) -> bool {
    &&& 0 <= i < entries.len()
    &&& place_key(entries[i]) == k
    &&& forall|j: int| i < j < entries.len() ==> place_key(#[trigger] entries[j]) != k
}

/// The keys of `r` increase strictly.
#[verifier::opaque]
pub open spec fn keys_sorted(r: Seq<PlacedTemplate>) -> bool {
    forall|a: int, b: int| 0 <= a < b < r.len() ==> key_before(place_key(#[trigger] r[a]), place_key(#[trigger] r[b]))
}

/// Entry `e` holds the template of the last entry of `entries` with its
/// key.
pub open spec fn has_witness(entries: Seq<PlacedTemplate>, e: PlacedTemplate) -> bool {
    exists|j: int| #[trigger] last_with_key(entries, place_key(e), j) && template_view(e.2) == template_view(entries[j].2)
}

/// Each entry of `r` holds the template of the last entry of `entries`
/// with its key.
#[verifier::opaque]
pub open spec fn witnessed(entries: Seq<PlacedTemplate>, r: Seq<PlacedTemplate>) -> bool {
    forall|i: int| 0 <= i < r.len() ==> #[trigger] has_witness(entries, r[i])
}

/// Every key of `entries` is in `r`.
#[verifier::opaque]
pub open spec fn covered(entries: Seq<PlacedTemplate>, r: Seq<PlacedTemplate>) -> bool {
    forall|j: int|
        #![trigger entries[j]]
        0 <= j < entries.len() ==> exists|i: int| 0 <= i < r.len() && #[trigger] place_key(r[i]) == place_key(entries[j])
}

/// `r` lists the keys of `entries` once each, in key order, each with the
/// template of the last entry with that key.
pub open spec fn placed_order(entries: Seq<PlacedTemplate>, r: Seq<PlacedTemplate>) -> bool {
    keys_sorted(r) && witnessed(entries, r) && covered(entries, r)
}

proof fn lemma_key_order(a: (usize, Seq<char>), b: (usize, Seq<char>), c: (usize, Seq<char>))
    ensures
        key_before(a, b) && key_before(b, c) ==> key_before(a, c),
        !key_before(a, b) && a != b ==> key_before(b, a),
        key_before(a, b) ==> a != b && !key_before(b, a),
{
    lemma_precedence_antisymmetric(a.1, b.1);
    if key_before(a, b) && key_before(b, c) && a.0 == b.0 && b.0 == c.0 {
        lemma_precedence_transitive(a.1, b.1, c.1);
    }
    if a.0 == b.0 && a.1 == b.1 {
        assert(a == b);
    }
}

fn key_compare(e: &PlacedTemplate, place: usize, key: &String) -> (r: i8)
    ensures
        r < 0 <==> key_before(place_key(*e), (place, key@)),
        r == 0 <==> place_key(*e) == (place, key@),
        r > 0 <==> key_before((place, key@), place_key(*e)),
{
    proof {
        lemma_precedence_antisymmetric(e.1@, key@);
    }
    if e.0 < place {
        -1
    } else if e.0 > place {
        1
    } else {
        text_precedence_of(e.1.as_str(), key.as_str())
    }
}

/// How a step of the ordering changes the list: `after` is `before` with
/// entry `p` replaced (`replaced`) or a new entry inserted at `p`, and
/// that entry has the key and template of entry `k`.
pub open spec fn step_shape(
    entries: Seq<PlacedTemplate>,
    k: int,
    before: Seq<PlacedTemplate>,
    after: Seq<PlacedTemplate>,
    p: int,
    replaced: bool,
) -> bool {
    &&& 0 <= k < entries.len()
    &&& place_key(after[p]) == place_key(entries[k])
    &&& template_view(after[p].2) == template_view(entries[k].2)
    &&& if replaced {
        &&& 0 <= p < before.len()
        &&& after.len() == before.len()
        &&& place_key(before[p]) == place_key(entries[k])
        &&& forall|i: int| 0 <= i < before.len() && i != p ==> #[trigger] after[i] == before[i]
    } else {
        &&& 0 <= p <= before.len()
        &&& after.len() == before.len() + 1
        &&& forall|i: int| 0 <= i < p ==> #[trigger] after[i] == before[i]
        &&& forall|i: int| p < i < after.len() ==> #[trigger] after[i] == before[i - 1]
    }
}

/// The index in `before` of entry `i` of `after`, for `i` other than `p`.
pub open spec fn source_index(p: int, replaced: bool, i: int) -> int {
    if replaced || i < p {
        i
    } else {
        i - 1
    }
}

/// No entry of `before` has the key of entry `k`, unless it is replaced.
proof fn lemma_step_keys(
    entries: Seq<PlacedTemplate>,
    k: int,
    before: Seq<PlacedTemplate>,
    after: Seq<PlacedTemplate>,
    p: int,
    replaced: bool,
)
    requires
        keys_sorted(before),
        step_shape(entries, k, before, after, p, replaced),
        !replaced ==> forall|q: int| 0 <= q < p ==> key_before(place_key(#[trigger] before[q]), place_key(entries[k])),
        !replaced && p < before.len() ==> key_before(place_key(entries[k]), place_key(before[p])),
    ensures
        keys_sorted(after),
        forall|i: int|
            0 <= i < after.len() && i != p ==> #[trigger] after[i] == before[source_index(p, replaced, i)] && place_key(
                after[i],
            ) != place_key(entries[k]) && 0 <= source_index(p, replaced, i) < before.len(),
{
    reveal(keys_sorted);
    let kk = place_key(entries[k]);
    assert forall|q: int| 0 <= q < before.len() && (replaced ==> q != p) implies place_key(#[trigger] before[q]) != kk by {
        if replaced {
            if q < p {
                lemma_key_order(place_key(before[q]), place_key(before[p]), kk);
            } else {
                lemma_key_order(place_key(before[p]), place_key(before[q]), kk);
            }
        } else if q < p {
            lemma_key_order(place_key(before[q]), kk, kk);
        } else {
            if q > p {
                lemma_key_order(kk, place_key(before[p]), place_key(before[q]));
            }
            lemma_key_order(kk, place_key(before[q]), kk);
        }
    }
    assert forall|a: int, b: int| 0 <= a < b < after.len() implies key_before(
        place_key(#[trigger] after[a]),
        place_key(#[trigger] after[b]),
    ) by {
        if replaced {
            assert(place_key(after[a]) == place_key(before[a]));
            assert(place_key(after[b]) == place_key(before[b]));
        } else if b < p {
            assert(after[a] == before[a] && after[b] == before[b]);
        } else if b == p {
            assert(after[a] == before[a]);
        } else if a > p {
            assert(after[a] == before[a - 1] && after[b] == before[b - 1]);
        } else {
            let kb = place_key(before[b - 1]);
            assert(after[b] == before[b - 1]);
            if b - 1 > p {
                lemma_key_order(kk, place_key(before[p]), kb);
            }
            if a < p {
                assert(after[a] == before[a]);
                lemma_key_order(place_key(before[a]), kk, kb);
            }
        }
    }
}

/// A step keeps every entry's template the last with its key.
proof fn lemma_step_witnessed(
    entries: Seq<PlacedTemplate>,
    k: int,
    before: Seq<PlacedTemplate>,
    after: Seq<PlacedTemplate>,
    p: int,
    replaced: bool,
)
    requires
        witnessed(entries.take(k), before),
        step_shape(entries, k, before, after, p, replaced),
        forall|i: int|
            0 <= i < after.len() && i != p ==> #[trigger] after[i] == before[source_index(p, replaced, i)] && place_key(
                after[i],
            ) != place_key(entries[k]) && 0 <= source_index(p, replaced, i) < before.len(),
    ensures
        witnessed(entries.take(k + 1), after),
{
    reveal(witnessed);
    let pre = entries.take(k);
    let post = entries.take(k + 1);
    let kk = place_key(entries[k]);
    assert(post == pre.push(entries[k]));
    assert forall|i: int| 0 <= i < after.len() implies #[trigger] has_witness(entries.take(k + 1), after[i]) by {
        if i == p {
            assert(post[k] == entries[k]);
            assert(last_with_key(post, kk, k));
        } else {
            let bi = source_index(p, replaced, i);
            assert(after[i] == before[bi]);
            assert(0 <= bi < before.len());
            assert(has_witness(pre, before[bi]));
            let j = choose|j: int|
                #[trigger] last_with_key(pre, place_key(before[bi]), j) && template_view(before[bi].2)
                    == template_view(pre[j].2);
            assert(post[j] == pre[j]);
            assert(last_with_key(post, place_key(after[i]), j));
        }
    }
}

/// A step keeps every key present.
proof fn lemma_step_covered(
    entries: Seq<PlacedTemplate>,
    k: int,
    before: Seq<PlacedTemplate>,
    after: Seq<PlacedTemplate>,
    p: int,
    replaced: bool,
)
    requires
        covered(entries.take(k), before),
        step_shape(entries, k, before, after, p, replaced),
    ensures
        covered(entries.take(k + 1), after),
{
    reveal(covered);
    let pre = entries.take(k);
    let post = entries.take(k + 1);
    assert(post == pre.push(entries[k]));
    assert forall|j: int| #![trigger post[j]] 0 <= j < post.len() implies exists|i: int|
        0 <= i < after.len() && #[trigger] place_key(after[i]) == place_key(post[j]) by {
        if j == k {
            assert(place_key(after[p]) == place_key(post[j]));
        } else {
            assert(post[j] == pre[j]);
            let i = choose|i: int| 0 <= i < before.len() && #[trigger] place_key(before[i]) == place_key(pre[j]);
            if replaced {
                if i == p {
                    assert(place_key(after[p]) == place_key(post[j]));
                } else {
                    assert(after[i] == before[i]);
                }
            } else if i < p {
                assert(after[i] == before[i]);
            } else {
                assert(after[i + 1] == before[i]);
            }
        }
    }
}

/// The stored templates of a document in list order: by place, then by
/// key, each key once with its last template.
pub fn order_templates(entries: &Vec<PlacedTemplate>) -> (r: Vec<PlacedTemplate>)
    ensures
        placed_order(entries@, r@),
{
    let mut r: Vec<PlacedTemplate> = Vec::new();
    let n = entries.len();
    proof {
        assert(entries@.take(0) =~= Seq::<PlacedTemplate>::empty());
        reveal(keys_sorted);
        reveal(witnessed);
        reveal(covered);
    }
    for k in 0..n
        invariant
            n == entries@.len(),
            placed_order(entries@.take(k as int), r@),
    {
        let ghost before = r@;
        let ghost kk = place_key(entries@[k as int]);
        let place = entries[k].0;
        let mut p: usize = 0;
        while p < r.len() && key_compare(&r[p], place, &entries[k].1) < 0
            invariant
                k < n == entries@.len(),
                p <= r@.len(),
                r@ == before,
                kk == (place, entries@[k as int].1@),
                forall|q: int| 0 <= q < p ==> key_before(place_key(#[trigger] before[q]), kk),
            decreases r@.len() - p,
        {
            p = p + 1;
        }
        let entry = (place, entries[k].1.clone(), copy_template(&entries[k].2));
        let replace = p < r.len() && key_compare(&r[p], place, &entries[k].1) == 0;
        proof {
            if !replace && p < before.len() {
                lemma_key_order(place_key(before[p as int]), kk, kk);
            }
        }
        if replace {
            r.set(p, entry);
        } else {
            r.insert(p, entry);
        }
        proof {
            lemma_step_keys(entries@, k as int, before, r@, p as int, replace);
            lemma_step_witnessed(entries@, k as int, before, r@, p as int, replace);
            lemma_step_covered(entries@, k as int, before, r@, p as int, replace);
        }
    }
    proof {
        assert(entries@.take(n as int) =~= entries@);
    }
    r
}

impl StoredData {
    /// Saves the task with identifier `task_id` as a template named `name`,
    /// trimmed, with the next template identifier, and returns it.
    pub fn save_task_template(&mut self, task_id: i64, name: &str) -> (r: Result<TaskTemplate, String>)
        ensures
            trim(name@).len() == 0 ==> (r matches Err(e) && e@ == "Template name cannot be empty"@)
                && *final(self) == *old(self),
            trim(name@).len() > 0 && !has_task(*old(self), task_id) ==> (r matches Err(e) && e@
                == "Task not found: "@ + int_decimal(task_id as int)) && *final(self) == *old(self),
            trim(name@).len() > 0 && old(self).next_template_id == i64::MAX && has_task(*old(self), task_id)
                ==> (r matches Err(e) && e@ == "Template ID range exhausted"@) && *final(self) == *old(self),
            forall|i: int, j: int| #[trigger]
                task_at(*old(self), task_id, i, j) && trim(name@).len() > 0 && old(self).next_template_id
                    < i64::MAX ==> {
                    &&& r matches Ok(t) && template_view(t) == (
                        old(self).next_template_id,
                        trim(name@),
                        template_task(old(self).columns@[i].tasks@[j]@),
                    )
                    &&& final(self).templates@.len() == old(self).templates@.len() + 1
                    &&& final(self).templates@.drop_last() == old(self).templates@
                    &&& template_view(final(self).templates@.last()) == template_view(r->Ok_0)
                    &&& *final(self) == (StoredData {
                        templates: final(self).templates,
                        next_template_id: (old(self).next_template_id + 1) as i64,
                        ..*old(self)
                    })
                },
    {
        let trimmed = trim_str(name);
        if trimmed.unicode_len() == 0 {
            return Err(String::from_str("Template name cannot be empty"));
        }
        let task = match find_task(self, task_id) {
            Ok(t) => normalize_template_task(t),
            Err(e) => return Err(e),
        };
        let id = match self.allocate_template_id() {
            Ok(id) => id,
            Err(e) => return Err(e),
        };
        let template = TaskTemplate { id, name: String::from_str(trimmed), task };
        let saved = copy_template(&template);
        self.templates.push(template);
        proof {
            assert(self.templates@.drop_last() =~= old(self).templates@);
        }
        Ok(saved)
    }

    /// Replaces the template with identifier `template_id` by one named
    /// `name`, trimmed, that keeps `task` as a template keeps it, and
    /// returns it. Neither the name nor the task's title may be blank.
    pub fn update_task_template(&mut self, template_id: i64, name: &str, task: Task) -> (r: Result<
        TaskTemplate,
        String,
    >)
        ensures
            trim(name@).len() == 0 ==> (r matches Err(e) && e@ == "Template name cannot be empty"@)
                && *final(self) == *old(self),
            trim(name@).len() > 0 && trim(task.title@).len() == 0 ==> (r matches Err(e) && e@
                == "Template task title cannot be empty"@) && *final(self) == *old(self),
            trim(name@).len() > 0 && trim(task.title@).len() > 0 && !has_template(*old(self), template_id)
                ==> (r matches Err(e) && e@ == "Template not found: "@ + int_decimal(template_id as int))
                && *final(self) == *old(self),
            forall|k: int| #[trigger]
                template_at(*old(self), template_id, k) && trim(name@).len() > 0 && trim(task.title@).len()
                    > 0 ==> {
                    &&& r matches Ok(t) && template_view(t) == (template_id, trim(name@), template_task(task@))
                    &&& final(self).templates@.len() == old(self).templates@.len()
                    &&& forall|q: int|
                        0 <= q < old(self).templates@.len() && q != k ==> #[trigger] final(self).templates@[q]
                            == old(self).templates@[q]
                    &&& template_view(final(self).templates@[k]) == template_view(r->Ok_0)
                    &&& *final(self) == (StoredData { templates: final(self).templates, ..*old(self) })
                },
    {
        let trimmed = trim_str(name);
        if trimmed.unicode_len() == 0 {
            return Err(String::from_str("Template name cannot be empty"));
        }
        if trim_str(task.title.as_str()).unicode_len() == 0 {
            return Err(String::from_str("Template task title cannot be empty"));
        }
        let index = match template_index(self, template_id) {
            Ok(k) => k,
            Err(e) => return Err(e),
        };
        let template = TaskTemplate {
            id: template_id,
            name: String::from_str(trimmed),
            task: normalize_template_task(task),
        };
        let saved = copy_template(&template);
        self.templates.set(index, template);
        Ok(saved)
    }

    /// Deletes the template with identifier `template_id`.
    pub fn delete_task_template(&mut self, template_id: i64) -> (r: Result<(), String>)
        ensures
            !has_template(*old(self), template_id) ==> (r matches Err(e) && e@ == "Template not found: "@
                + int_decimal(template_id as int)) && *final(self) == *old(self),
            forall|k: int| #[trigger]
                template_at(*old(self), template_id, k) ==> r is Ok && final(self).templates@
                    == old(self).templates@.remove(k) && *final(self) == (StoredData {
                    templates: final(self).templates,
                    ..*old(self)
                }),
    {
        let index = match template_index(self, template_id) {
            Ok(k) => k,
            Err(e) => return Err(e),
        };
        self.templates.remove(index);
        Ok(())
    }
}

} // verus!
