//! Equality of board contents, field by field, as `==` on the model types
//! compares them.
use vstd::prelude::*;
use crate::models::{Archive, Column, Recurrence, StoredData, Task, TaskItem, TaskTemplate, TaskView};
use crate::stored::views;

verus! {

/// The contents of a column.
pub open spec fn column_view(c: Column) -> (i64, Seq<char>, Seq<char>, crate::models::ColumnSort, Seq<TaskView>) {
    (c.id, c.name@, c.color@, c.sort_order, c.tasks@.map_values(|t: Task| t@))
}

/// The contents of an archive entry.
pub open spec fn archive_view(a: Archive) -> (u128, TaskView) {
    (a.time, a.task@)
}

/// The contents of a template.
pub open spec fn template_contents(t: TaskTemplate) -> (i64, Seq<char>, TaskView) {
    (t.id, t.name@, t.task@)
}

/// `a` and `b` hold the same board, settings aside.
pub open spec fn same_board(a: StoredData, b: StoredData) -> bool {
    &&& a.schema_version == b.schema_version
    &&& a.columns@.map_values(|c: Column| column_view(c)) == b.columns@.map_values(|c: Column| column_view(c))
    &&& a.archives@.map_values(|x: Archive| archive_view(x)) == b.archives@.map_values(
        |x: Archive| archive_view(x),
    )
    &&& a.templates@.map_values(|t: TaskTemplate| template_contents(t)) == b.templates@.map_values(
        |t: TaskTemplate| template_contents(t),
    )
    &&& views(a.label_recency@) == views(b.label_recency@)
    &&& a.next_column_id == b.next_column_id
    &&& a.next_task_id == b.next_task_id
    &&& a.next_template_id == b.next_template_id
}

/// The columns of `a` and `b` hold the same identifiers, names, colours,
/// sort orders and tasks.
pub open spec fn columns_same(a: Seq<Column>, b: Seq<Column>) -> bool {
    &&& a.len() == b.len()
    &&& forall|i: int|
        0 <= i < a.len() ==> {
            &&& #[trigger] a[i].id == b[i].id
            &&& a[i].name@ == b[i].name@
            &&& a[i].color@ == b[i].color@
            &&& a[i].sort_order == b[i].sort_order
            &&& a[i].tasks@.len() == b[i].tasks@.len()
            &&& forall|k: int| 0 <= k < a[i].tasks@.len() ==> #[trigger] a[i].tasks@[k]@ == b[i].tasks@[k]@
        }
}

/// The archive entries of `a` and `b` hold the same times and tasks.
pub open spec fn archives_same(a: Seq<Archive>, b: Seq<Archive>) -> bool {
    &&& a.len() == b.len()
    &&& forall|i: int| 0 <= i < a.len() ==> #[trigger] a[i].time == b[i].time && a[i].task@ == b[i].task@
}

/// The templates of `a` and `b` hold the same identifiers, names and tasks.
pub open spec fn templates_same(a: Seq<TaskTemplate>, b: Seq<TaskTemplate>) -> bool {
    &&& a.len() == b.len()
    &&& forall|i: int|
        0 <= i < a.len() ==> #[trigger] a[i].id == b[i].id && a[i].name@ == b[i].name@ && a[i].task@ == b[i].task@
}

/// The strings of `a` and `b` are equal, in order.
pub open spec fn strings_same(a: Seq<String>, b: Seq<String>) -> bool {
    &&& a.len() == b.len()
    &&& forall|i: int| 0 <= i < a.len() ==> #[trigger] a[i]@ == b[i]@
}

/// Everything stored in `a` and `b` is equal, settings aside: the schema
/// version, the columns with their tasks, the archive, the templates, the
/// label recency and the three identifier counters.
pub open spec fn stored_contents_equal(a: StoredData, b: StoredData) -> bool {
    &&& a.schema_version == b.schema_version
    &&& columns_same(a.columns@, b.columns@)
    &&& archives_same(a.archives@, b.archives@)
    &&& templates_same(a.templates@, b.templates@)
    &&& strings_same(a.label_recency@, b.label_recency@)
    &&& a.next_column_id == b.next_column_id
    &&& a.next_task_id == b.next_task_id
    &&& a.next_template_id == b.next_template_id
}

proof fn lemma_columns_same(a: Seq<Column>, b: Seq<Column>)
    ensures
        (a.map_values(|c: Column| column_view(c)) == b.map_values(|c: Column| column_view(c))) <==> columns_same(a, b),
{
    let ca = a.map_values(|c: Column| column_view(c));
    let cb = b.map_values(|c: Column| column_view(c));
    if ca == cb {
        assert(a.len() == b.len());
        assert forall|i: int| 0 <= i < a.len() implies {
            &&& #[trigger] a[i].id == b[i].id
            &&& a[i].name@ == b[i].name@
            &&& a[i].color@ == b[i].color@
            &&& a[i].sort_order == b[i].sort_order
            &&& a[i].tasks@.len() == b[i].tasks@.len()
            &&& forall|k: int| 0 <= k < a[i].tasks@.len() ==> #[trigger] a[i].tasks@[k]@ == b[i].tasks@[k]@
        } by {
            assert(ca[i] == column_view(a[i]));
            assert(cb[i] == column_view(b[i]));
            let ta = column_view(a[i]).4;
            let tb = column_view(b[i]).4;
            assert(ta.len() == a[i].tasks@.len() && tb.len() == b[i].tasks@.len());
            assert forall|k: int| 0 <= k < a[i].tasks@.len() implies #[trigger] a[i].tasks@[k]@ == b[i].tasks@[k]@ by {
                assert(ta[k] == a[i].tasks@[k]@);
                assert(tb[k] == b[i].tasks@[k]@);
            }
        }
    }
    if columns_same(a, b) {
        assert forall|i: int| 0 <= i < ca.len() implies ca[i] == cb[i] by {
            assert(a[i].id == b[i].id);
            assert(column_view(a[i]).4 =~= column_view(b[i]).4);
        }
        assert(ca =~= cb);
    }
}

proof fn lemma_archives_same(a: Seq<Archive>, b: Seq<Archive>)
    ensures
        (a.map_values(|x: Archive| archive_view(x)) == b.map_values(|x: Archive| archive_view(x))) <==> archives_same(a, b),
{
    let xa = a.map_values(|x: Archive| archive_view(x));
    let xb = b.map_values(|x: Archive| archive_view(x));
    if xa == xb {
        assert(a.len() == b.len());
        assert forall|i: int| 0 <= i < a.len() implies #[trigger] a[i].time == b[i].time && a[i].task@ == b[i].task@ by {
            assert(xa[i] == archive_view(a[i]));
            assert(xb[i] == archive_view(b[i]));
        }
    }
    if archives_same(a, b) {
        assert forall|i: int| 0 <= i < xa.len() implies xa[i] == xb[i] by {
            assert(a[i].time == b[i].time);
        }
        assert(xa =~= xb);
    }
}

proof fn lemma_templates_same(a: Seq<TaskTemplate>, b: Seq<TaskTemplate>)
    ensures
        (a.map_values(|t: TaskTemplate| template_contents(t)) == b.map_values(|t: TaskTemplate| template_contents(t)))
            <==> templates_same(a, b),
{
    let ta = a.map_values(|t: TaskTemplate| template_contents(t));
    let tb = b.map_values(|t: TaskTemplate| template_contents(t));
    if ta == tb {
        assert(a.len() == b.len());
        assert forall|i: int| 0 <= i < a.len() implies #[trigger] a[i].id == b[i].id && a[i].name@ == b[i].name@
            && a[i].task@ == b[i].task@ by {
            assert(ta[i] == template_contents(a[i]));
            assert(tb[i] == template_contents(b[i]));
        }
    }
    if templates_same(a, b) {
        assert forall|i: int| 0 <= i < ta.len() implies ta[i] == tb[i] by {
            assert(a[i].id == b[i].id);
        }
        assert(ta =~= tb);
    }
}

proof fn lemma_strings_same(a: Seq<String>, b: Seq<String>)
    ensures
        (views(a) == views(b)) <==> strings_same(a, b),
{
    if views(a) == views(b) {
        assert(views(a).len() == a.len() && views(b).len() == b.len());
        assert forall|i: int| 0 <= i < a.len() implies #[trigger] a[i]@ == b[i]@ by {
            assert(views(a)[i] == a[i]@);
            assert(views(b)[i] == b[i]@);
        }
    }
    if strings_same(a, b) {
        assert(views(a) =~= views(b));
    }
}

/// Two boards count as the same exactly when everything stored in them is
/// equal, settings aside: see [`stored_contents_equal`].
pub proof fn lemma_same_board_is_equal_contents(a: StoredData, b: StoredData)
    ensures
        same_board(a, b) <==> stored_contents_equal(a, b),
{
    lemma_columns_same(a.columns@, b.columns@);
    lemma_archives_same(a.archives@, b.archives@);
    lemma_templates_same(a.templates@, b.templates@);
    lemma_strings_same(a.label_recency@, b.label_recency@);
}

/// Whether two lists of strings hold the same strings in order.
pub fn strings_equal(a: &Vec<String>, b: &Vec<String>) -> (r: bool)
    ensures
        r == (views(a@) == views(b@)),
{
    if a.len() != b.len() {
        proof {
            assert(views(a@).len() != views(b@).len());
        }
        return false;
    }
    let n = a.len();
    for i in 0..n
        invariant
            n == a@.len(),
            n == b@.len(),
            forall|k: int| 0 <= k < i ==> a@[k]@ == b@[k]@,
    {
        if a[i] != b[i] {
            proof {
                assert(views(a@)[i as int] != views(b@)[i as int]);
            }
            return false;
        }
    }
    proof {
        assert(views(a@) =~= views(b@));
    }
    true
}

fn recurrence_equal(a: Option<Recurrence>, b: Option<Recurrence>) -> (r: bool)
    ensures
        r == (a == b),
{
    match (a, b) {
        (None, None) => true,
        (Some(x), Some(y)) => x.frequency == y.frequency && x.interval == y.interval,
        _ => false,
    }
}

fn items_equal(a: &Vec<TaskItem>, b: &Vec<TaskItem>) -> (r: bool)
    ensures
        r == (a@.map_values(|i: TaskItem| i@) == b@.map_values(|i: TaskItem| i@)),
{
    let ghost va = a@.map_values(|i: TaskItem| i@);
    let ghost vb = b@.map_values(|i: TaskItem| i@);
    if a.len() != b.len() {
        proof {
            assert(va.len() != vb.len());
        }
        return false;
    }
    let n = a.len();
    for i in 0..n
        invariant
            n == a@.len(),
            n == b@.len(),
            va == a@.map_values(|i: TaskItem| i@),
            vb == b@.map_values(|i: TaskItem| i@),
            forall|k: int| 0 <= k < i ==> va[k] == vb[k],
    {
        if a[i].id != b[i].id || a[i].text != b[i].text || a[i].completed != b[i].completed {
            proof {
                assert(va[i as int] != vb[i as int]);
            }
            return false;
        }
    }
    proof {
        assert(va =~= vb);
    }
    true
}

/// Whether two tasks hold the same contents.
pub fn task_equal(a: &Task, b: &Task) -> (r: bool)
    ensures
        r == (a@ == b@),
{
    let same = a.id == b.id && a.title == b.title && a.description == b.description && a.color == b.color
        && a.start_time == b.start_time && a.due_time == b.due_time && strings_equal(&a.labels, &b.labels)
        && items_equal(&a.items, &b.items) && recurrence_equal(a.recurrence, b.recurrence);
    proof {
        assert(views(a.labels@) == a@.labels);
        assert(views(b.labels@) == b@.labels);
        if views(a.labels@) == views(b.labels@) {
            assert(a@.labels =~= b@.labels);
        }
    }
    same
}

fn tasks_equal(a: &Vec<Task>, b: &Vec<Task>) -> (r: bool)
    ensures
        r == (a@.map_values(|t: Task| t@) == b@.map_values(|t: Task| t@)),
{
    let ghost va = a@.map_values(|t: Task| t@);
    let ghost vb = b@.map_values(|t: Task| t@);
    if a.len() != b.len() {
        proof {
            assert(va.len() != vb.len());
        }
        return false;
    }
    let n = a.len();
    for i in 0..n
        invariant
            n == a@.len(),
            n == b@.len(),
            va == a@.map_values(|t: Task| t@),
            vb == b@.map_values(|t: Task| t@),
            forall|k: int| 0 <= k < i ==> va[k] == vb[k],
    {
        if !task_equal(&a[i], &b[i]) {
            proof {
                assert(va[i as int] != vb[i as int]);
            }
            return false;
        }
    }
    proof {
        assert(va =~= vb);
    }
    true
}

/// Whether two columns hold the same contents.
pub fn column_equal(a: &Column, b: &Column) -> (r: bool)
    ensures
        r == (column_view(*a) == column_view(*b)),
{
    a.id == b.id && a.name == b.name && a.color == b.color && a.sort_order == b.sort_order && tasks_equal(
        &a.tasks,
        &b.tasks,
    )
}

/// Whether two lists of columns hold the same contents.
pub fn columns_equal(a: &Vec<Column>, b: &Vec<Column>) -> (r: bool)
    ensures
        r == (a@.map_values(|c: Column| column_view(c)) == b@.map_values(|c: Column| column_view(c))),
{
    let ghost va = a@.map_values(|c: Column| column_view(c));
    let ghost vb = b@.map_values(|c: Column| column_view(c));
    if a.len() != b.len() {
        proof {
            assert(va.len() != vb.len());
        }
        return false;
    }
    let n = a.len();
    for i in 0..n
        invariant
            n == a@.len(),
            n == b@.len(),
            va == a@.map_values(|c: Column| column_view(c)),
            vb == b@.map_values(|c: Column| column_view(c)),
            forall|k: int| 0 <= k < i ==> va[k] == vb[k],
    {
        if !column_equal(&a[i], &b[i]) {
            proof {
                assert(va[i as int] != vb[i as int]);
            }
            return false;
        }
    }
    proof {
        assert(va =~= vb);
    }
    true
}

/// Whether two archives hold the same entries in order.
pub fn archives_equal(a: &Vec<Archive>, b: &Vec<Archive>) -> (r: bool)
    ensures
        r == (a@.map_values(|x: Archive| archive_view(x)) == b@.map_values(|x: Archive| archive_view(x))),
{
    let ghost va = a@.map_values(|x: Archive| archive_view(x));
    let ghost vb = b@.map_values(|x: Archive| archive_view(x));
    if a.len() != b.len() {
        proof {
            assert(va.len() != vb.len());
        }
        return false;
    }
    let n = a.len();
    for i in 0..n
        invariant
            n == a@.len(),
            n == b@.len(),
            va == a@.map_values(|x: Archive| archive_view(x)),
            vb == b@.map_values(|x: Archive| archive_view(x)),
            forall|k: int| 0 <= k < i ==> va[k] == vb[k],
    {
        if a[i].time != b[i].time || !task_equal(&a[i].task, &b[i].task) {
            proof {
                assert(va[i as int] != vb[i as int]);
            }
            return false;
        }
    }
    proof {
        assert(va =~= vb);
    }
    true
}

/// Whether two lists of templates hold the same contents.
pub fn templates_equal(a: &Vec<TaskTemplate>, b: &Vec<TaskTemplate>) -> (r: bool)
    ensures
        r == (a@.map_values(|t: TaskTemplate| template_contents(t)) == b@.map_values(
            |t: TaskTemplate| template_contents(t),
        )),
{
    let ghost va = a@.map_values(|t: TaskTemplate| template_contents(t));
    let ghost vb = b@.map_values(|t: TaskTemplate| template_contents(t));
    if a.len() != b.len() {
        proof {
            assert(va.len() != vb.len());
        }
        return false;
    }
    let n = a.len();
    for i in 0..n
        invariant
            n == a@.len(),
            n == b@.len(),
            va == a@.map_values(|t: TaskTemplate| template_contents(t)),
            vb == b@.map_values(|t: TaskTemplate| template_contents(t)),
            forall|k: int| 0 <= k < i ==> va[k] == vb[k],
    {
        if a[i].id != b[i].id || a[i].name != b[i].name || !task_equal(&a[i].task, &b[i].task) {
            proof {
                assert(va[i as int] != vb[i as int]);
            }
            return false;
        }
    }
    proof {
        assert(va =~= vb);
    }
    true
}

/// Whether `a` and `b` hold the same board, settings aside: see
/// [`same_board`].
pub fn same_board_contents(a: &StoredData, b: &StoredData) -> (r: bool)
    ensures
        r == same_board(*a, *b),
        r == stored_contents_equal(*a, *b),
{
    proof {
        lemma_same_board_is_equal_contents(*a, *b);
    }
    a.schema_version == b.schema_version && columns_equal(&a.columns, &b.columns) && archives_equal(
        &a.archives,
        &b.archives,
    ) && templates_equal(&a.templates, &b.templates) && strings_equal(&a.label_recency, &b.label_recency)
        && a.next_column_id == b.next_column_id && a.next_task_id == b.next_task_id && a.next_template_id
        == b.next_template_id
}

} // verus!
