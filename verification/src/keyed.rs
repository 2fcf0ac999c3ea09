//! Rows kept by identifier: which go and which are written when a list of
//! keyed entries (archives, templates) changes.
use vstd::prelude::*;
use crate::equality::{archive_view, template_contents, task_equal};
use crate::models::{Archive, TaskTemplate};

verus! {

/// An entry stored under an identifier.
pub trait Keyed: Sized {
    /// The identifier the entry is stored under.
    spec fn key_of(&self) -> i64;

    /// The two entries hold the same contents.
    spec fn same(&self, other: &Self) -> bool;

    fn key(&self) -> (r: i64)
        ensures
            r == self.key_of(),
    ;

    fn same_as(&self, other: &Self) -> (r: bool)
        ensures
            r == self.same(other),
    ;
}

impl Keyed for Archive {
    open spec fn key_of(&self) -> i64 {
        self.task.id
    }

    open spec fn same(&self, other: &Self) -> bool {
        archive_view(*self) == archive_view(*other)
    }

    fn key(&self) -> (r: i64) {
        self.task.id
    }

    fn same_as(&self, other: &Self) -> (r: bool) {
        self.time == other.time && task_equal(&self.task, &other.task)
    }
}

impl Keyed for TaskTemplate {
    open spec fn key_of(&self) -> i64 {
        self.id
    }

    open spec fn same(&self, other: &Self) -> bool {
        template_contents(*self) == template_contents(*other)
    }

    fn key(&self) -> (r: i64) {
        self.id
    }

    fn same_as(&self, other: &Self) -> (r: bool) {
        self.id == other.id && self.name == other.name && task_equal(&self.task, &other.task)
    }
}

/// Some entry of `s` is stored under `id`.
pub open spec fn has_key<T: Keyed>(s: Seq<T>, id: i64) -> bool {
    exists|i: int| 0 <= i < s.len() && #[trigger] s[i].key_of() == id
}

/// Entry `i` of `s` is the last one stored under its identifier.
pub open spec fn last_of_key<T: Keyed>(s: Seq<T>, i: int) -> bool {
    0 <= i < s.len() && forall|k: int| i < k < s.len() ==> #[trigger] s[k].key_of() != s[i].key_of()
}

/// The index of the last entry of `s` stored under `id`.
pub open spec fn last_key_index<T: Keyed>(s: Seq<T>, id: i64) -> Option<int>
    decreases s.len(),
{
    if s.len() == 0 {
        None
    } else if s.last().key_of() == id {
        Some(s.len() - 1)
    } else {
        last_key_index(s.drop_last(), id)
    }
}

/// Entry `k` of `after`, the last under its identifier, has to be written:
/// `before` has nothing under it, or its last entry there stood elsewhere or
/// held other contents.
pub open spec fn entry_changed<T: Keyed>(before: Seq<T>, after: Seq<T>, k: int) -> bool {
    match last_key_index(before, after[k].key_of()) {
        None => true,
        Some(j) => j != k || !before[j].same(&after[k]),
    }
}

proof fn lemma_last_key_index<T: Keyed>(s: Seq<T>, id: i64, j: int)
    requires
        0 <= j < s.len(),
        s[j].key_of() == id,
        forall|k: int| j < k < s.len() ==> #[trigger] s[k].key_of() != id,
    ensures
        last_key_index(s, id) == Some(j),
    decreases s.len(),
{
    if j < s.len() - 1 {
        assert(s[s.len() - 1].key_of() != id);
        lemma_last_key_index(s.drop_last(), id, j);
    }
}

proof fn lemma_last_key_index_none<T: Keyed>(s: Seq<T>, id: i64)
    requires
        forall|k: int| 0 <= k < s.len() ==> #[trigger] s[k].key_of() != id,
    ensures
        last_key_index(s, id) is None,
    decreases s.len(),
{
    if s.len() > 0 {
        assert(s[s.len() - 1].key_of() != id);
        lemma_last_key_index_none(s.drop_last(), id);
    }
}

proof fn lemma_last_key_index_is_last<T: Keyed>(s: Seq<T>, id: i64, j: int)
    requires
        last_key_index(s, id) == Some(j),
    ensures
        0 <= j < s.len(),
        s[j].key_of() == id,
        forall|k: int| j < k < s.len() ==> #[trigger] s[k].key_of() != id,
    decreases s.len(),
{
    if s.last().key_of() != id {
        lemma_last_key_index_is_last(s.drop_last(), id, j);
        assert forall|k: int| j < k < s.len() implies #[trigger] s[k].key_of() != id by {
            if k < s.len() - 1 {
                assert(s.drop_last()[k] == s[k]);
            }
        }
    }
}

/// The index of the last entry of `s` stored under `id`.
fn last_with_key<T: Keyed>(s: &Vec<T>, id: i64) -> (r: Option<usize>)
    ensures
        match r {
            Some(j) => j < s@.len() && last_key_index(s@, id) == Some(j as int) && s@[j as int].key_of() == id,
            None => last_key_index(s@, id) is None && !has_key(s@, id),
        },
{
    let n = s.len();
    let mut i = n;
    while i > 0
        invariant
            i <= n,
            n == s@.len(),
            forall|k: int| i <= k < n ==> #[trigger] s@[k].key_of() != id,
        decreases i,
    {
        if s[i - 1].key() == id {
            proof {
                lemma_last_key_index(s@, id, i - 1);
            }
            return Some(i - 1);
        }
        i = i - 1;
    }
    proof {
        lemma_last_key_index_none(s@, id);
    }
    None
}

/// Whether `v` holds `x`.
fn contains_id(v: &Vec<i64>, x: i64) -> (r: bool)
    ensures
        r == v@.contains(x),
{
    let n = v.len();
    for i in 0..n
        invariant
            n == v@.len(),
            forall|k: int| 0 <= k < i ==> v@[k] != x,
    {
        if v[i] == x {
            return true;
        }
    }
    false
}

/// The identifiers that `before` stores entries under and `after` does not,
/// each once.
pub fn removed_keys<T: Keyed>(before: &Vec<T>, after: &Vec<T>) -> (r: Vec<i64>)
    ensures
        r@.no_duplicates(),
        forall|id: i64| r@.contains(id) <==> has_key(before@, id) && !has_key(after@, id),
{
    let mut r: Vec<i64> = Vec::new();
    let n = before.len();
    for i in 0..n
        invariant
            n == before@.len(),
            r@.no_duplicates(),
            forall|x: i64| #[trigger] r@.contains(x) ==> has_key(before@, x) && !has_key(after@, x),
            forall|k: int|
                0 <= k < i && !has_key(after@, before@[k].key_of()) ==> r@.contains(#[trigger] before@[k].key_of()),
    {
        let id = before[i].key();
        let kept = match last_with_key(after, id) {
            Some(_) => true,
            None => false,
        };
        let ghost old_r = r@;
        if !kept && !contains_id(&r, id) {
            r.push(id);
            proof {
                assert forall|a: int, b: int| 0 <= a < b < r@.len() implies r@[a] != r@[b] by {
                    if b == old_r.len() {
                        assert(old_r.contains(old_r[a]));
                    }
                }
                assert forall|x: i64| #[trigger] r@.contains(x) implies has_key(before@, x) && !has_key(
                    after@,
                    x,
                ) by {
                    let k = choose|k: int| 0 <= k < r@.len() && r@[k] == x;
                    if k < old_r.len() {
                        assert(old_r.contains(x));
                    } else {
                        assert(before@[i as int].key_of() == x);
                    }
                }
            }
        }
        proof {
            assert forall|k: int|
                0 <= k < i + 1 && !has_key(after@, before@[k].key_of()) implies r@.contains(
                #[trigger] before@[k].key_of(),
            ) by {
                if k < i {
                    let x = before@[k].key_of();
                    let q = choose|q: int| 0 <= q < old_r.len() && old_r[q] == x;
                    assert(r@[q] == x);
                } else if !kept && !old_r.contains(id) {
                    assert(r@[old_r.len() as int] == id);
                } else {
                    assert(old_r.contains(id));
                    let q = choose|q: int| 0 <= q < old_r.len() && old_r[q] == id;
                    assert(r@[q] == id);
                }
            }
        }
    }
    r
}

/// The indices of the entries of `after` to write, in order: each
/// identifier once, by its last entry, when that entry changed.
pub fn changed_entries<T: Keyed>(before: &Vec<T>, after: &Vec<T>) -> (r: Vec<usize>)
    ensures
        forall|a: int, b: int| 0 <= a < b < r@.len() ==> r@[a] < r@[b],
        forall|k: int|
            0 <= k < r@.len() ==> last_of_key(after@, #[trigger] r@[k] as int) && entry_changed(
                before@,
                after@,
                r@[k] as int,
            ),
        forall|i: int|
            #[trigger] last_of_key(after@, i) && entry_changed(before@, after@, i) ==> r@.contains(i as usize),
{
    let mut r: Vec<usize> = Vec::new();
    let n = after.len();
    for i in 0..n
        invariant
            n == after@.len(),
            forall|a: int| 0 <= a < r@.len() ==> r@[a] < i,
            forall|a: int, b: int| 0 <= a < b < r@.len() ==> r@[a] < r@[b],
            forall|k: int|
                0 <= k < r@.len() ==> last_of_key(after@, #[trigger] r@[k] as int) && entry_changed(
                    before@,
                    after@,
                    r@[k] as int,
                ),
            forall|q: int|
                0 <= q < i && #[trigger] last_of_key(after@, q) && entry_changed(before@, after@, q)
                    ==> r@.contains(q as usize),
    {
        let id = after[i].key();
        let last = match last_with_key(after, id) {
            Some(j) => j == i,
            None => false,
        };
        proof {
            if last_of_key(after@, i as int) {
                lemma_last_key_index(after@, id, i as int);
            }
            if last {
                lemma_last_key_index_is_last(after@, id, i as int);
            }
        }
        if last {
            let changed = match last_with_key(before, id) {
                None => true,
                Some(j) => j != i || !before[j].same_as(&after[i]),
            };
            if changed {
                let ghost old_r = r@;
                r.push(i);
                proof {
                    assert(r@[old_r.len() as int] == i);
                    assert forall|q: int|
                        0 <= q < i && #[trigger] last_of_key(after@, q) && entry_changed(before@, after@, q)
                            implies r@.contains(q as usize) by {
                        let a = choose|a: int| 0 <= a < old_r.len() && old_r[a] == q as usize;
                        assert(r@[a] == q as usize);
                    }
                }
            }
        }
    }
    r
}

} // verus!
