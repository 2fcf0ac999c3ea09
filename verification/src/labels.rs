//! The labels in use on a board: the sorted set of the labels of its
//! tasks, and the order in which they are offered.
use vstd::prelude::*;
use crate::models::{Column, StoredData, Task};
use crate::stored::views;
use crate::update::{text_precedence, text_precedence_of};

verus! {

/// `a` comes before `b` in the order of their characters (that of their
/// UTF-8 bytes).
pub open spec fn text_less(a: Seq<char>, b: Seq<char>) -> bool {
    text_precedence(a, b) < 0
}

pub(crate) proof fn lemma_precedence_antisymmetric(a: Seq<char>, b: Seq<char>)
    ensures
        text_precedence(a, b) == -text_precedence(b, a),
        text_precedence(a, b) == 0 <==> a == b,
    decreases a.len(),
{
    if a.len() > 0 && b.len() > 0 && a[0] == b[0] {
        lemma_precedence_antisymmetric(a.drop_first(), b.drop_first());
        if a.drop_first() == b.drop_first() {
            assert(a =~= seq![a[0]] + a.drop_first());
            assert(b =~= seq![b[0]] + b.drop_first());
        }
    }
    if a.len() == 0 && b.len() == 0 {
        assert(a =~= b);
    }
}

pub(crate) proof fn lemma_precedence_transitive(a: Seq<char>, b: Seq<char>, c: Seq<char>)
    requires
        text_less(a, b),
        text_less(b, c),
    ensures
        text_less(a, c),
    decreases a.len(),
{
    if a.len() > 0 && b.len() > 0 && c.len() > 0 && a[0] == b[0] && b[0] == c[0] {
        lemma_precedence_transitive(a.drop_first(), b.drop_first(), c.drop_first());
    }
}

/// `s` is in strictly increasing text order.
pub open spec fn strictly_sorted(s: Seq<Seq<char>>) -> bool {
    forall|a: int, b: int| 0 <= a < b < s.len() ==> text_less(#[trigger] s[a], #[trigger] s[b])
}

/// Every label of every task of `cols`.
pub open spec fn has_label(cols: Seq<Column>, label: Seq<char>) -> bool {
    exists|c: int, t: int, k: int|
        0 <= c < cols.len() && 0 <= t < cols[c].tasks@.len() && 0 <= k < cols[c].tasks@[t].labels@.len()
            && #[trigger] cols[c].tasks@[t].labels@[k]@ == label
}

/// `set` with `label` added in its place, where it is not there yet.
fn insert_sorted(set: &mut Vec<String>, label: &String)
    requires
        strictly_sorted(views(old(set)@)),
    ensures
        strictly_sorted(views(final(set)@)),
        views(final(set)@).to_set() == views(old(set)@).to_set().insert(label@),
{
    let ghost before = views(set@);
    let n = set.len();
    let mut p: usize = 0;
    while p < n && text_precedence_of(set[p].as_str(), label.as_str()) < 0
        invariant
            p <= n,
            n == set@.len(),
            before == views(set@),
            strictly_sorted(before),
            forall|k: int| 0 <= k < p ==> text_less(#[trigger] before[k], label@),
        decreases n - p,
    {
        p = p + 1;
    }
    if p < n && text_precedence_of(set[p].as_str(), label.as_str()) == 0 {
        proof {
            lemma_precedence_antisymmetric(before[p as int], label@);
            assert(before.to_set() =~= before.to_set().insert(label@)) by {
                assert(before.to_set().contains(before[p as int]));
            }
        }
        return;
    }
    proof {
        if p < n {
            lemma_precedence_antisymmetric(before[p as int], label@);
            assert(text_less(label@, before[p as int]));
        }
    }
    set.insert(p, label.clone());
    proof {
        let after = views(set@);
        assert(after =~= before.insert(p as int, label@));
        assert forall|a: int, b: int| 0 <= a < b < after.len() implies text_less(
            #[trigger] after[a],
            #[trigger] after[b],
        ) by {
            if b < p {
            } else if b == p {
                assert(text_less(before[a], label@));
            } else if a == p {
                if b - 1 > p {
                    lemma_precedence_transitive(label@, before[p as int], before[b - 1]);
                }
            } else if a < p {
                assert(text_less(before[a], label@));
                if b - 1 > p {
                    lemma_precedence_transitive(label@, before[p as int], before[b - 1]);
                }
                lemma_precedence_transitive(before[a], label@, before[b - 1]);
            } else {
                assert(after[a] == before[a - 1] && after[b] == before[b - 1]);
            }
        }
        assert(after.to_set() =~= before.to_set().insert(label@)) by {
            assert forall|x: Seq<char>| #[trigger] after.to_set().contains(x) implies before.to_set().insert(
                label@,
            ).contains(x) by {
                let i = choose|i: int| 0 <= i < after.len() && after[i] == x;
                if i < p {
                    assert(before[i] == x);
                } else if i > p {
                    assert(before[i - 1] == x);
                }
            }
            assert forall|x: Seq<char>| #[trigger] before.to_set().insert(label@).contains(x) implies after.to_set().contains(
                x,
            ) by {
                if x == label@ {
                    assert(after[p as int] == x);
                } else {
                    let i = choose|i: int| 0 <= i < before.len() && before[i] == x;
                    if i < p {
                        assert(after[i] == x);
                    } else {
                        assert(after[i + 1] == x);
                    }
                }
            }
        }
    }
}

/// The labels of the tasks of `data`'s columns, each once, in text order.
pub fn collect_labels(data: &StoredData) -> (r: Vec<String>)
    ensures
        strictly_sorted(views(r@)),
        forall|label: Seq<char>| views(r@).contains(label) <==> has_label(data.columns@, label),
{
    let mut r: Vec<String> = Vec::new();
    let n = data.columns.len();
    proof {
        assert(views(r@).to_set() =~= Set::<Seq<char>>::empty());
    }
    for c in 0..n
        invariant
            n == data.columns@.len(),
            strictly_sorted(views(r@)),
            forall|label: Seq<char>| #[trigger] views(r@).to_set().contains(label) ==> has_label(data.columns@, label),
            forall|c2: int, t: int, k: int|
                0 <= c2 < c && 0 <= t < data.columns@[c2].tasks@.len() && 0 <= k
                    < data.columns@[c2].tasks@[t].labels@.len() ==> views(r@).to_set().contains(
                    #[trigger] data.columns@[c2].tasks@[t].labels@[k]@,
                ),
    {
        let tasks = &data.columns[c].tasks;
        let m = tasks.len();
        for t in 0..m
            invariant
                n == data.columns@.len(),
                c < n,
                tasks == &data.columns@[c as int].tasks,
                m == tasks@.len(),
                strictly_sorted(views(r@)),
                forall|label: Seq<char>| #[trigger] views(r@).to_set().contains(label) ==> has_label(data.columns@, label),
                forall|c2: int, t2: int, k: int|
                    (0 <= c2 < c || (c2 == c && t2 < t)) && 0 <= t2 < data.columns@[c2].tasks@.len() && 0 <= k
                        < data.columns@[c2].tasks@[t2].labels@.len() ==> views(r@).to_set().contains(
                        #[trigger] data.columns@[c2].tasks@[t2].labels@[k]@,
                    ),
        {
            let labels = &tasks[t].labels;
            let q = labels.len();
            for k in 0..q
                invariant
                    n == data.columns@.len(),
                    c < n,
                    tasks == &data.columns@[c as int].tasks,
                    m == tasks@.len(),
                    t < m,
                    labels == &tasks@[t as int].labels,
                    q == labels@.len(),
                    strictly_sorted(views(r@)),
                    forall|label: Seq<char>| #[trigger] views(r@).to_set().contains(label) ==> has_label(
                        data.columns@,
                        label,
                    ),
                    forall|c2: int, t2: int, k2: int|
                        (0 <= c2 < c || (c2 == c && t2 < t) || (c2 == c && t2 == t && k2 < k)) && 0 <= t2
                            < data.columns@[c2].tasks@.len() && 0 <= k2 < data.columns@[c2].tasks@[t2].labels@.len()
                            ==> views(r@).to_set().contains(#[trigger] data.columns@[c2].tasks@[t2].labels@[k2]@),
            {
                let ghost old_set = views(r@).to_set();
                insert_sorted(&mut r, &labels[k]);
                proof {
                    assert(data.columns@[c as int].tasks@[t as int].labels@[k as int]@ == labels@[k as int]@);
                    assert forall|label: Seq<char>| #[trigger] views(r@).to_set().contains(label) implies has_label(
                        data.columns@,
                        label,
                    ) by {
                        if label == labels@[k as int]@ {
                            assert(data.columns@[c as int].tasks@[t as int].labels@[k as int]@ == label);
                        } else {
                            assert(old_set.contains(label));
                        }
                    }
                }
            }
        }
    }
    proof {
        assert forall|label: Seq<char>| views(r@).contains(label) <==> has_label(data.columns@, label) by {
            if views(r@).contains(label) {
                assert(views(r@).to_set().contains(label));
            }
            if has_label(data.columns@, label) {
                let (c, t, k) = choose|c: int, t: int, k: int|
                    0 <= c < data.columns@.len() && 0 <= t < data.columns@[c].tasks@.len() && 0 <= k
                        < data.columns@[c].tasks@[t].labels@.len() && #[trigger] data.columns@[c].tasks@[t].labels@[k]@
                        == label;
                assert(views(r@).to_set().contains(data.columns@[c].tasks@[t].labels@[k]@));
            }
        }
    }
    r
}


/// The entries of `s` that `pool` holds, in order, repeats kept.
pub open spec fn kept_in(s: Seq<Seq<char>>, pool: Seq<Seq<char>>) -> Seq<Seq<char>>
    decreases s.len(),
{
    if s.len() == 0 {
        Seq::empty()
    } else if pool.contains(s.last()) {
        kept_in(s.drop_last(), pool).push(s.last())
    } else {
        kept_in(s.drop_last(), pool)
    }
}

/// The entries of `s` that `pool` does not hold, in order, repeats kept.
pub open spec fn left_out(s: Seq<Seq<char>>, pool: Seq<Seq<char>>) -> Seq<Seq<char>>
    decreases s.len(),
{
    if s.len() == 0 {
        Seq::empty()
    } else if pool.contains(s.last()) {
        left_out(s.drop_last(), pool)
    } else {
        left_out(s.drop_last(), pool).push(s.last())
    }
}

/// Whether `v` holds a string equal to `x`.
fn holds_text(v: &Vec<String>, x: &String) -> (r: bool)
    ensures
        r == views(v@).contains(x@),
{
    let n = v.len();
    for i in 0..n
        invariant
            n == v@.len(),
            forall|k: int| 0 <= k < i ==> v@[k]@ != x@,
    {
        if v[i] == *x {
            proof {
                assert(views(v@)[i as int] == x@);
            }
            return true;
        }
    }
    false
}

/// The entries of `s` that `pool` holds (`keep`), or does not hold (not
/// `keep`), in order.
fn sift(s: &Vec<String>, pool: &Vec<String>, keep: bool) -> (r: Vec<String>)
    ensures
        views(r@) == (if keep {
            kept_in(views(s@), views(pool@))
        } else {
            left_out(views(s@), views(pool@))
        }),
{
    let mut r: Vec<String> = Vec::new();
    let n = s.len();
    for k in 0..n
        invariant
            n == s@.len(),
            views(r@) == (if keep {
                kept_in(views(s@.take(k as int)), views(pool@))
            } else {
                left_out(views(s@.take(k as int)), views(pool@))
            }),
    {
        proof {
            assert(views(s@.take(k + 1)).drop_last() =~= views(s@.take(k as int)));
            assert(views(s@.take(k + 1)).last() == s@[k as int]@);
        }
        let inside = holds_text(pool, &s[k]);
        if inside == keep {
            let ghost before = views(r@);
            r.push(s[k].clone());
            proof {
                assert(views(r@) =~= before.push(s@[k as int]@));
            }
        }
    }
    proof {
        assert(s@.take(n as int) =~= s@);
    }
    r
}

/// The labels to offer, most recent first: the labels of `recency` that are
/// in use (`labels`), in recency order, then the other labels in use in
/// their order.
pub fn ordered_labels(recency: &Vec<String>, labels: &Vec<String>) -> (r: Vec<String>)
    ensures
        views(r@) == kept_in(views(recency@), views(labels@)) + left_out(
            views(labels@),
            kept_in(views(recency@), views(labels@)),
        ),
{
    let mut first = sift(recency, labels, true);
    let mut rest = sift(labels, &first, false);
    let ghost a = views(first@);
    let ghost b = views(rest@);
    first.append(&mut rest);
    proof {
        assert(views(first@) =~= a + b);
    }
    first
}
} // verus!
