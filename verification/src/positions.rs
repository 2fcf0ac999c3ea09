//! Sparse sort positions for columns and tasks. Items that keep their
//! relative order keep their stored position, so that a move rewrites only
//! the moved rows; the others get positions in the gaps between them.
use vstd::prelude::*;
use std::collections::HashMap;

verus! {

broadcast use vstd::std_specs::hash::group_hash_axioms;

/// The distance between consecutive fresh positions.
pub const SORT_POSITION_GAP: i64 = 1024;

/// The `count` positions `GAP, 2·GAP, …`, if they all fit in an `i64`.
pub open spec fn evenly_spaced(count: int) -> Option<Seq<i64>> {
    if count <= 0 {
        Some(Seq::empty())
    } else if 1024 * count <= i64::MAX {
        Some(Seq::new(count as nat, |k: int| (1024 * (k + 1)) as i64))
    } else {
        None
    }
}

/// The `count` positions that fill a gap with neighbours `left` and `right`:
/// evenly between two neighbours, `GAP` apart after a left neighbour alone or
/// before a right one alone, and from `GAP` on without neighbours. `None` when
/// they do not fit between the neighbours or in an `i64`.
pub open spec fn sparse_between(left: Option<i64>, right: Option<i64>, count: int) -> Option<Seq<i64>> {
    match (left, right) {
        (Some(l), Some(r)) => {
            if r - l <= count {
                None
            } else {
                let step = (r - l) / (count + 1);
                Some(Seq::new(count as nat, |k: int| (l + step * (k + 1)) as i64))
            }
        },
        (Some(l), None) => {
            if l + 1024 * count > i64::MAX {
                None
            } else {
                Some(Seq::new(count as nat, |k: int| (l + 1024 * (k + 1)) as i64))
            }
        },
        (None, Some(r)) => {
            if r - 1024 * count < i64::MIN {
                None
            } else {
                Some(Seq::new(count as nat, |k: int| (r - 1024 * (count - k)) as i64))
            }
        },
        (None, None) => evenly_spaced(count),
    }
}

/// `m` maps each of `ids` to its value in `vals`; where an identifier
/// repeats, the later occurrence wins.
pub open spec fn map_of(ids: Seq<i64>, vals: Seq<i64>, m: Map<i64, i64>) -> bool {
    &&& m.dom() == ids.to_set()
    &&& forall|k: int|
        0 <= k < ids.len() && (forall|l: int| k < l < ids.len() ==> ids[l] != ids[k])
            ==> m[#[trigger] ids[k]] == vals[k]
}

/// The anchors keep their stored position, and those positions increase
/// strictly along `ids`.
pub open spec fn anchors_valid(ids: Seq<i64>, old: Map<i64, i64>, anchors: Seq<bool>) -> bool {
    &&& anchors.len() == ids.len()
    &&& forall|k: int| 0 <= k < ids.len() && #[trigger] anchors[k] ==> old.contains_key(ids[k])
    &&& forall|a: int, b: int|
        0 <= a < b < ids.len() && #[trigger] anchors[a] && #[trigger] anchors[b] ==> old[ids[a]]
            < old[ids[b]]
}

/// The nearest anchor before `k`, or -1.
pub open spec fn prev_anchor(anchors: Seq<bool>, k: int) -> int
    decreases k,
{
    if k <= 0 {
        -1
    } else if anchors[k - 1] {
        k - 1
    } else {
        prev_anchor(anchors, k - 1)
    }
}

/// The nearest anchor after `k`, or `anchors.len()`.
pub open spec fn next_anchor(anchors: Seq<bool>, k: int) -> int
    decreases anchors.len() - k,
{
    if k + 1 >= anchors.len() {
        anchors.len() as int
    } else if anchors[k + 1] {
        k + 1
    } else {
        next_anchor(anchors, k + 1)
    }
}

/// The gap fill of the run of non-anchors around `k`.
pub open spec fn run_fill(ids: Seq<i64>, old: Map<i64, i64>, anchors: Seq<bool>, k: int) -> Option<Seq<i64>> {
    let p = prev_anchor(anchors, k);
    let q = next_anchor(anchors, k);
    let left = if p >= 0 { Some(old[ids[p]]) } else { None };
    let right = if q < ids.len() { Some(old[ids[q]]) } else { None };
    sparse_between(left, right, q - p - 1)
}

/// Every run of non-anchors can be filled.
pub open spec fn fill_fits(ids: Seq<i64>, old: Map<i64, i64>, anchors: Seq<bool>) -> bool {
    forall|k: int| 0 <= k < ids.len() && !anchors[k] ==> #[trigger] run_fill(ids, old, anchors, k) is Some
}

/// The position of every item: the stored one for anchors, the gap fill
/// for the others.
pub open spec fn filled(ids: Seq<i64>, old: Map<i64, i64>, anchors: Seq<bool>) -> Seq<i64> {
    Seq::new(
        ids.len(),
        |k: int|
            if anchors[k] {
                old[ids[k]]
            } else {
                run_fill(ids, old, anchors, k).unwrap()[k - prev_anchor(anchors, k) - 1]
            },
    )
}

/// `m` maps the anchors to their stored positions and then each non-anchor
/// to its gap fill; where an identifier repeats, a non-anchor occurrence
/// wins over an anchor, and a later one over an earlier one.
pub open spec fn fill_map(ids: Seq<i64>, vals: Seq<i64>, anchors: Seq<bool>, m: Map<i64, i64>) -> bool {
    &&& m.dom() == ids.to_set()
    &&& forall|k: int|
        0 <= k < ids.len() && !anchors[k] && (forall|l: int| k < l < ids.len() && !anchors[l] ==> ids[l] != ids[k])
            ==> m[#[trigger] ids[k]] == vals[k]
    &&& forall|k: int|
        0 <= k < ids.len() && anchors[k] && (forall|l: int| 0 <= l < ids.len() && !anchors[l] ==> ids[l] != ids[k])
            ==> m[#[trigger] ids[k]] == vals[k]
}

/// The positions `GAP, 2·GAP, …`, or `None` where they do not fit.
pub fn evenly_spaced_values(count: i128) -> (r: Option<Vec<i64>>)
    ensures
        r matches Some(v) ==> evenly_spaced(count as int) == Some(v@),
        r is None ==> evenly_spaced(count as int) is None,
{
    if count <= 0 {
        return Some(Vec::new());
    }
    if count > 9007199254740991 {
        return None;
    }
    let mut v: Vec<i64> = Vec::new();
    let mut k: i128 = 0;
    while k < count
        invariant
            0 <= k <= count <= 9007199254740991,
            v@ == Seq::new(k as nat, |q: int| (1024 * (q + 1)) as i64),
        decreases count - k,
    {
        v.push((1024 * (k + 1)) as i64);
        k = k + 1;
        assert(v@ =~= Seq::new(k as nat, |q: int| (1024 * (q + 1)) as i64));
    }
    Some(v)
}

/// The positions `GAP, 2·GAP, …` for `ids`, in order.
pub fn evenly_spaced_positions(ids: &[i64]) -> (r: Result<HashMap<i64, i64>, String>)
    ensures
        r matches Ok(m) ==> evenly_spaced(ids@.len() as int) matches Some(vals) && map_of(ids@, vals, m@),
        r matches Err(e) ==> evenly_spaced(ids@.len() as int) is None && e@
            == "Too many items to assign sort positions"@,
{
    let values = match evenly_spaced_values(ids.len() as i128) {
        Some(values) => values,
        None => return Err(String::from_str("Too many items to assign sort positions")),
    };
    let mut m: HashMap<i64, i64> = HashMap::new();
    let n = ids.len();
    for k in 0..n
        invariant
            n == ids@.len(),
            values@.len() == n,
            m@.dom() == ids@.take(k as int).to_set(),
            forall|j: int|
                0 <= j < k && (forall|l: int| j < l < k ==> ids@[l] != ids@[j]) ==> m@[#[trigger] ids@[j]]
                    == values@[j],
    {
        m.insert(ids[k], values[k]);
        proof {
            assert(ids@.take(k + 1) =~= ids@.take(k as int).push(ids@[k as int]));
            ids@.take(k as int).lemma_push_to_set_commute(ids@[k as int]);
        }
    }
    assert(ids@.take(n as int) =~= ids@);
    Ok(m)
}

/// The positions that fill a gap of `count` items between `left` and
/// `right`.
pub fn sparse_values_between(left: Option<i64>, right: Option<i64>, count: usize) -> (r: Option<Vec<i64>>)
    ensures
        r matches Some(v) ==> sparse_between(left, right, count as int) == Some(v@),
        r is None ==> sparse_between(left, right, count as int) is None,
{
    let c: i128 = count as i128;
    match (left, right) {
        (Some(l), Some(rt)) => {
            let available: i128 = (rt as i128) - (l as i128);
            if available <= c {
                return None;
            }
            let step: i128 = available / (c + 1);
            proof {
                lemma_step_bound(available as int, c as int);
            }
            let mut v: Vec<i64> = Vec::new();
            let mut k: i128 = 0;
            while k < c
                invariant
                    0 <= k <= c,
                    c == count,
                    available == rt - l,
                    available > c,
                    step == available / ((c + 1) as i128),
                    step >= 1,
                    step * c < available,
                    v@ == Seq::new(k as nat, |q: int| (l + step * (q + 1)) as i64),
                decreases c - k,
            {
                proof {
                    lemma_mul_le(step as int, k + 1, c as int);
                }
                v.push(((l as i128) + step * (k + 1)) as i64);
                k = k + 1;
                assert(v@ =~= Seq::new(k as nat, |q: int| (l + step * (q + 1)) as i64));
            }
            Some(v)
        },
        (Some(l), None) => {
            if (l as i128) + 1024 * c > i64::MAX as i128 {
                return None;
            }
            let mut v: Vec<i64> = Vec::new();
            let mut k: i128 = 0;
            while k < c
                invariant
                    0 <= k <= c,
                    c == count,
                    l + 1024 * c <= i64::MAX,
                    v@ == Seq::new(k as nat, |q: int| (l + 1024 * (q + 1)) as i64),
                decreases c - k,
            {
                v.push(((l as i128) + 1024 * (k + 1)) as i64);
                k = k + 1;
                assert(v@ =~= Seq::new(k as nat, |q: int| (l + 1024 * (q + 1)) as i64));
            }
            Some(v)
        },
        (None, Some(rt)) => {
            if (rt as i128) - 1024 * c < i64::MIN as i128 {
                return None;
            }
            let mut v: Vec<i64> = Vec::new();
            let mut k: i128 = 0;
            while k < c
                invariant
                    0 <= k <= c,
                    c == count,
                    rt - 1024 * c >= i64::MIN,
                    v@ == Seq::new(k as nat, |q: int| (rt - 1024 * (c - q)) as i64),
                decreases c - k,
            {
                v.push(((rt as i128) - 1024 * (c - k)) as i64);
                k = k + 1;
                assert(v@ =~= Seq::new(k as nat, |q: int| (rt - 1024 * (c - q)) as i64));
            }
            Some(v)
        },
        (None, None) => evenly_spaced_values(c),
    }
}

proof fn lemma_step_bound(available: int, c: int)
    by (nonlinear_arith)
    requires
        0 <= c < available,
    ensures
        available / (c + 1) >= 1,
        (available / (c + 1)) * c < available,
{
    let step = available / (c + 1);
    assert(step * (c + 1) <= available);
}

proof fn lemma_mul_le(step: int, a: int, b: int)
    by (nonlinear_arith)
    requires
        0 <= step,
        0 <= a <= b,
    ensures
        step * a <= step * b,
{
}


/// The identifiers at the anchors among the first `upto` items.
pub open spec fn anchor_ids(ids: Seq<i64>, anchors: Seq<bool>, upto: int) -> Set<i64> {
    Set::new(|x: i64| exists|j: int| 0 <= j < upto && #[trigger] anchors[j] && ids[j] == x)
}

/// What the fallback to fresh positions gives: the evenly spaced
/// positions, or the error when they do not fit.
pub open spec fn fresh_positions(ids: Seq<i64>, r: Result<Map<i64, i64>, Seq<char>>) -> bool {
    match r {
        Ok(m) => (evenly_spaced(ids.len() as int) matches Some(vals) && map_of(ids, vals, m)),
        Err(e) => evenly_spaced(ids.len() as int) is None && e == "Too many items to assign sort positions"@,
    }
}

/// The view of a position assignment.
pub open spec fn result_view(r: Result<HashMap<i64, i64>, String>) -> Result<Map<i64, i64>, Seq<char>> {
    match r {
        Ok(m) => Ok(m@),
        Err(e) => Err(e@),
    }
}

/// Every non-anchor before `upto` has a fill, and `m` holds it.
#[verifier::opaque]
pub open spec fn fill_done(ids: Seq<i64>, old: Map<i64, i64>, anchors: Seq<bool>, m: Map<i64, i64>, upto: int) -> bool {
    forall|k: int|
        0 <= k < upto && !#[trigger] anchors[k] ==> run_fill(ids, old, anchors, k) is Some && m[ids[k]]
            == filled(ids, old, anchors)[k]
}

/// `m` holds the stored position of every anchor.
#[verifier::opaque]
pub open spec fn anchors_kept(ids: Seq<i64>, old: Map<i64, i64>, anchors: Seq<bool>, m: Map<i64, i64>) -> bool {
    forall|j: int| 0 <= j < ids.len() && #[trigger] anchors[j] ==> m[ids[j]] == old[ids[j]]
}

proof fn lemma_dom_step(ids: Seq<i64>, extra: Set<i64>, at: int)
    requires
        0 <= at < ids.len(),
    ensures
        ids.take(at + 1).to_set().union(extra) == ids.take(at).to_set().union(extra).insert(ids[at]),
{
    assert(ids.take(at + 1) =~= ids.take(at).push(ids[at]));
    ids.take(at).lemma_push_to_set_commute(ids[at]);
    assert(ids.take(at + 1).to_set().union(extra) =~= ids.take(at).to_set().union(extra).insert(ids[at]));
}

#[verifier::spinoff_prover]
proof fn lemma_fill_done_anchor(ids: Seq<i64>, old: Map<i64, i64>, anchors: Seq<bool>, m: Map<i64, i64>, at: int)
    requires
        fill_done(ids, old, anchors, m, at),
        0 <= at < anchors.len(),
        anchors[at],
    ensures
        fill_done(ids, old, anchors, m, at + 1),
{
    reveal(fill_done);
}

proof fn lemma_run_fill_neighbours(
    ids: Seq<i64>,
    old: Map<i64, i64>,
    anchors: Seq<bool>,
    m: Map<i64, i64>,
    start: int,
    end: int,
    left: Option<i64>,
    right: Option<i64>,
)
    requires
        anchors.len() == ids.len(),
        0 <= start < end <= ids.len(),
        start == 0 || anchors[start - 1],
        end == ids.len() || anchors[end],
        forall|j: int| start <= j < end ==> !#[trigger] anchors[j],
        anchors_kept(ids, old, anchors, m),
        start > 0 ==> m.contains_key(ids[start - 1]),
        end < ids.len() ==> m.contains_key(ids[end]),
        left == (if start > 0 { Some(m[ids[start - 1]]) } else { None::<i64> }),
        right == (if end < ids.len() { Some(m[ids[end]]) } else { None::<i64> }),
    ensures
        forall|k: int|
            start <= k < end ==> #[trigger] run_fill(ids, old, anchors, k) == sparse_between(
                left,
                right,
                end - start,
            ),
{
    reveal(anchors_kept);
    assert forall|k: int| start <= k < end implies #[trigger] run_fill(ids, old, anchors, k)
        == sparse_between(left, right, end - start) by {
        lemma_run_bounds(anchors, start, end, k);
        if start > 0 {
            assert(anchors[start - 1]);
        }
        if end < ids.len() {
            assert(anchors[end]);
        }
    }
}

proof fn lemma_fill_insert(
    ids: Seq<i64>,
    old: Map<i64, i64>,
    anchors: Seq<bool>,
    m: Map<i64, i64>,
    start: int,
    end: int,
    at: int,
    values: Seq<i64>,
)
    requires
        ids.no_duplicates(),
        anchors.len() == ids.len(),
        0 <= start <= at < end <= ids.len(),
        values.len() == end - start,
        start == 0 || anchors[start - 1],
        end == ids.len() || anchors[end],
        forall|j: int| start <= j < end ==> !#[trigger] anchors[j],
        forall|k: int| start <= k < end ==> #[trigger] run_fill(ids, old, anchors, k) == Some(values),
        anchors_kept(ids, old, anchors, m),
        fill_done(ids, old, anchors, m, at),
    ensures
        anchors_kept(ids, old, anchors, m.insert(ids[at], values[at - start])),
        fill_done(ids, old, anchors, m.insert(ids[at], values[at - start]), at + 1),
{
    reveal(anchors_kept);
    reveal(fill_done);
    let m2 = m.insert(ids[at], values[at - start]);
    lemma_run_bounds(anchors, start, end, at);
    assert(run_fill(ids, old, anchors, at) == Some(values));
    assert(filled(ids, old, anchors)[at] == values[at - start]);
    assert forall|j: int| 0 <= j < ids.len() && #[trigger] anchors[j] implies m2[ids[j]] == old[ids[j]] by {
        assert(j != at);
    }
    assert forall|k: int| 0 <= k < at + 1 && !#[trigger] anchors[k] implies run_fill(ids, old, anchors, k) is Some
        && m2[ids[k]] == filled(ids, old, anchors)[k] by {
        if k < at {
            assert(ids[k] != ids[at]);
        }
    }
}

proof fn lemma_fill_complete(ids: Seq<i64>, old: Map<i64, i64>, anchors: Seq<bool>, m: Map<i64, i64>)
    requires
        ids.no_duplicates(),
        anchors.len() == ids.len(),
        m.dom() == ids.to_set(),
        anchors_kept(ids, old, anchors, m),
        fill_done(ids, old, anchors, m, ids.len() as int),
    ensures
        fill_fits(ids, old, anchors),
        map_of(ids, filled(ids, old, anchors), m),
{
    reveal(anchors_kept);
    reveal(fill_done);
    let vals = filled(ids, old, anchors);
    assert forall|k: int| 0 <= k < ids.len() && (forall|l: int| k < l < ids.len() ==> ids[l] != ids[k])
        implies m[#[trigger] ids[k]] == vals[k] by {
        if anchors[k] {
            assert(m[ids[k]] == old[ids[k]]);
        } else {
            assert(m[ids[k]] == vals[k]);
        }
    }
}

/// The positions of a gap fill increase strictly and lie strictly between
/// the neighbours.
pub proof fn lemma_sparse_between_orders(left: Option<i64>, right: Option<i64>, count: int)
    requires
        count >= 0,
        sparse_between(left, right, count) is Some,
    ensures
        ({
            let vals = sparse_between(left, right, count).unwrap();
            &&& vals.len() == count
            &&& forall|i: int, j: int| 0 <= i < j < count ==> vals[i] < vals[j]
            &&& forall|i: int| 0 <= i < count && left is Some ==> left.unwrap() < #[trigger] vals[i]
            &&& forall|i: int| 0 <= i < count && right is Some ==> #[trigger] vals[i] < right.unwrap()
        }),
{
    let vals = sparse_between(left, right, count).unwrap();
    match (left, right) {
        (Some(l), Some(r)) => {
            let step = (r - l) / (count + 1);
            lemma_step_bound(r - l, count);
            assert forall|i: int| 0 <= i < count implies l < l + step * (i + 1) < r && vals[i] == l + step
                * (i + 1) by {
                lemma_mul_le(step, i + 1, count);
                assert(step * (i + 1) >= 1) by (nonlinear_arith)
                    requires
                        step >= 1,
                        i + 1 >= 1,
                ;
            }
            assert forall|i: int, j: int| 0 <= i < j < count implies vals[i] < vals[j] by {
                assert(step * (i + 1) < step * (j + 1)) by (nonlinear_arith)
                    requires
                        step >= 1,
                        i < j,
                ;
            }
        },
        (Some(l), None) => {
        },
        (None, Some(r)) => {
        },
        (None, None) => {
        },
    }
}

/// The nearest anchor before `k` lies before it, is an anchor, and no
/// anchor lies between them.
proof fn lemma_prev_anchor(anchors: Seq<bool>, k: int)
    requires
        0 <= k <= anchors.len(),
    ensures
        -1 <= prev_anchor(anchors, k) < k,
        prev_anchor(anchors, k) >= 0 ==> anchors[prev_anchor(anchors, k)],
        forall|j: int| prev_anchor(anchors, k) < j < k ==> !#[trigger] anchors[j],
    decreases k,
{
    if k > 0 && !anchors[k - 1] {
        lemma_prev_anchor(anchors, k - 1);
    }
}

/// The nearest anchor after `k` lies after it, is an anchor (or the end),
/// and no anchor lies between them.
proof fn lemma_next_anchor(anchors: Seq<bool>, k: int)
    requires
        0 <= k < anchors.len(),
    ensures
        k < next_anchor(anchors, k) <= anchors.len(),
        next_anchor(anchors, k) < anchors.len() ==> anchors[next_anchor(anchors, k)],
        forall|j: int| k < j < next_anchor(anchors, k) ==> !#[trigger] anchors[j],
    decreases anchors.len() - k,
{
    if k + 1 < anchors.len() && !anchors[k + 1] {
        lemma_next_anchor(anchors, k + 1);
    }
}

/// A non-anchor's fill lies strictly between its neighbouring anchors.
proof fn lemma_fill_between(ids: Seq<i64>, old: Map<i64, i64>, anchors: Seq<bool>, k: int)
    requires
        anchors.len() == ids.len(),
        0 <= k < ids.len(),
        !anchors[k],
        run_fill(ids, old, anchors, k) is Some,
    ensures
        prev_anchor(anchors, k) >= 0 ==> old[ids[prev_anchor(anchors, k)]] < filled(ids, old, anchors)[k],
        next_anchor(anchors, k) < ids.len() ==> filled(ids, old, anchors)[k] < old[ids[next_anchor(anchors, k)]],
{
    let p = prev_anchor(anchors, k);
    let q = next_anchor(anchors, k);
    lemma_prev_anchor(anchors, k);
    lemma_next_anchor(anchors, k);
    let left = if p >= 0 { Some(old[ids[p]]) } else { None::<i64> };
    let right = if q < ids.len() { Some(old[ids[q]]) } else { None::<i64> };
    lemma_sparse_between_orders(left, right, q - p - 1);
    let vals = sparse_between(left, right, q - p - 1).unwrap();
    assert(filled(ids, old, anchors)[k] == vals[k - p - 1]);
}

/// Two non-anchors with no anchor between them share their neighbours.
proof fn lemma_same_run(anchors: Seq<bool>, a: int, b: int)
    requires
        0 <= a < b < anchors.len(),
        forall|j: int| a <= j <= b ==> !#[trigger] anchors[j],
    ensures
        prev_anchor(anchors, a) == prev_anchor(anchors, b),
        next_anchor(anchors, a) == next_anchor(anchors, b),
    decreases b - a,
{
    if a + 1 < b {
        lemma_same_run(anchors, a + 1, b);
    }
}

/// With valid anchors and fitting gaps, the filled positions increase
/// strictly along `ids`.
pub proof fn lemma_filled_increases(ids: Seq<i64>, old: Map<i64, i64>, anchors: Seq<bool>)
    requires
        anchors_valid(ids, old, anchors),
        fill_fits(ids, old, anchors),
    ensures
        forall|a: int, b: int|
            0 <= a < b < ids.len() ==> #[trigger] filled(ids, old, anchors)[a] < #[trigger] filled(
                ids,
                old,
                anchors,
            )[b],
{
    let f = filled(ids, old, anchors);
    assert forall|a: int, b: int| 0 <= a < b < ids.len() implies #[trigger] f[a] < #[trigger] f[b] by {
        if anchors[a] && anchors[b] {
        } else if anchors[a] {
            assert(run_fill(ids, old, anchors, b) is Some);
            lemma_prev_anchor(anchors, b);
            lemma_fill_between(ids, old, anchors, b);
            let p = prev_anchor(anchors, b);
            if p > a {
                assert(old[ids[a]] < old[ids[p]]);
            }
        } else {
            assert(run_fill(ids, old, anchors, a) is Some);
            lemma_next_anchor(anchors, a);
            lemma_fill_between(ids, old, anchors, a);
            let q = next_anchor(anchors, a);
            if anchors[b] {
                if q < b {
                    assert(old[ids[q]] < old[ids[b]]);
                }
            } else if q < b {
                assert(run_fill(ids, old, anchors, b) is Some);
                lemma_prev_anchor(anchors, b);
                lemma_fill_between(ids, old, anchors, b);
                let p = prev_anchor(anchors, b);
                if q < p {
                    assert(old[ids[q]] < old[ids[p]]);
                }
            } else {
                lemma_same_run(anchors, a, b);
                let p = prev_anchor(anchors, a);
                lemma_prev_anchor(anchors, a);
                let left = if p >= 0 { Some(old[ids[p]]) } else { None::<i64> };
                let right = if q < ids.len() { Some(old[ids[q]]) } else { None::<i64> };
                lemma_sparse_between_orders(left, right, q - p - 1);
            }
        }
    }
}

/// Evenly spaced positions increase strictly.
pub proof fn lemma_evenly_spaced_increases(count: int)
    requires
        evenly_spaced(count) is Some,
    ensures
        forall|a: int, b: int|
            0 <= a < b < count ==> #[trigger] evenly_spaced(count).unwrap()[a]
                < #[trigger] evenly_spaced(count).unwrap()[b],
{
}

proof fn lemma_fresh_positions_increase(ids: Seq<i64>, r: Result<Map<i64, i64>, Seq<char>>)
    requires
        ids.no_duplicates(),
        fresh_positions(ids, r),
    ensures
        r matches Ok(m) ==> forall|a: int, b: int|
            0 <= a < b < ids.len() ==> #[trigger] m[ids[a]] < #[trigger] m[ids[b]],
{
    if let Ok(m) = r {
        let vals = evenly_spaced(ids.len() as int).unwrap();
        lemma_evenly_spaced_increases(ids.len() as int);
        assert forall|a: int, b: int| 0 <= a < b < ids.len() implies #[trigger] m[ids[a]] < #[trigger] m[ids[b]] by {
            assert(m[ids[a]] == vals[a]);
            assert(m[ids[b]] == vals[b]);
        }
    }
}

/// Inside a run of non-anchors `[start, end)` that follows an anchor (or
/// the front) and ends at an anchor (or the back), the nearest anchors of
/// every item are `start - 1` and `end`.
proof fn lemma_run_bounds(anchors: Seq<bool>, start: int, end: int, k: int)
    requires
        0 <= start <= k < end <= anchors.len(),
        start == 0 || anchors[start - 1],
        end == anchors.len() || anchors[end],
        forall|j: int| start <= j < end ==> !#[trigger] anchors[j],
    ensures
        prev_anchor(anchors, k) == start - 1,
        next_anchor(anchors, k) == end,
    decreases k - start,
{
    lemma_next_bound(anchors, k, end);
    if k > start {
        lemma_run_bounds(anchors, start, end, k - 1);
    }
}

proof fn lemma_next_bound(anchors: Seq<bool>, k: int, end: int)
    requires
        0 <= k < end <= anchors.len(),
        end == anchors.len() || anchors[end],
        forall|j: int| k <= j < end ==> !#[trigger] anchors[j],
    ensures
        next_anchor(anchors, k) == end,
    decreases end - k,
{
    if k + 1 < end {
        lemma_next_bound(anchors, k + 1, end);
    }
}


/// The number of anchors.
pub open spec fn anchor_count(anchors: Seq<bool>) -> nat
    decreases anchors.len(),
{
    if anchors.len() == 0 {
        0
    } else {
        anchor_count(anchors.drop_last()) + if anchors.last() {
            1nat
        } else {
            0nat
        }
    }
}

/// No valid choice of anchors keeps more stored positions than `anchors`.
pub open spec fn most_anchors(ids: Seq<i64>, old: Map<i64, i64>, anchors: Seq<bool>) -> bool {
    forall|other: Seq<bool>| #[trigger] anchors_valid(ids, old, other) ==> anchor_count(other) <= anchor_count(anchors)
}

/// Marking one more anchor adds one to the count.
proof fn lemma_count_mark(anchors: Seq<bool>, i: int)
    requires
        0 <= i < anchors.len(),
        !anchors[i],
    ensures
        anchor_count(anchors.update(i, true)) == anchor_count(anchors) + 1,
    decreases anchors.len(),
{
    let u = anchors.update(i, true);
    if i == anchors.len() - 1 {
        assert(u.drop_last() =~= anchors.drop_last());
    } else {
        assert(u.drop_last() =~= anchors.drop_last().update(i, true));
        lemma_count_mark(anchors.drop_last(), i);
    }
}

/// Without anchors the count is zero.
proof fn lemma_count_none(anchors: Seq<bool>)
    requires
        forall|j: int| 0 <= j < anchors.len() ==> !#[trigger] anchors[j],
    ensures
        anchor_count(anchors) == 0,
    decreases anchors.len(),
{
    if anchors.len() > 0 {
        lemma_count_none(anchors.drop_last());
    }
}

/// The stored items, by their index in `existing`, form a chain of strictly
/// increasing indices and strictly increasing stored positions.
pub open spec fn rising(existing: Seq<(usize, i64)>, c: Seq<int>) -> bool {
    &&& forall|i: int| 0 <= i < c.len() ==> 0 <= #[trigger] c[i] < existing.len()
    &&& forall|i: int, j: int|
        0 <= i < j < c.len() ==> #[trigger] c[i] < #[trigger] c[j] && existing[c[i]].1 < existing[c[j]].1
}

/// The length of the chain that the links `previous` lead back from `s`.
pub open spec fn link_len(previous: Seq<Option<usize>>, s: int) -> nat
    decreases s,
{
    if 0 <= s < previous.len() {
        match previous[s] {
            Some(p) => if 0 <= p < s {
                1 + link_len(previous, p as int)
            } else {
                1
            },
            None => 1,
        }
    } else {
        0
    }
}

/// Adding a link leaves the chains of earlier items as they were.
proof fn lemma_link_len_push(previous: Seq<Option<usize>>, x: Option<usize>, s: int)
    requires
        0 <= s < previous.len(),
    ensures
        link_len(previous.push(x), s) == link_len(previous, s),
    decreases s,
{
    match previous[s] {
        Some(p) => if 0 <= p < s {
            lemma_link_len_push(previous, x, p as int);
        },
        None => {},
    }
}

/// The index in `existing` of the item at index `k` of `ids`.
pub open spec fn existing_index(existing: Seq<(usize, i64)>, k: int) -> int {
    choose|s: int| 0 <= s < existing.len() && #[trigger] existing[s].0 == k
}

/// The chain of the anchors among the first `k` of `ids`, by their index
/// in `existing`.
pub open spec fn chain_upto(existing: Seq<(usize, i64)>, other: Seq<bool>, k: int) -> Seq<int>
    decreases k,
{
    if k <= 0 {
        Seq::empty()
    } else if other[k - 1] {
        chain_upto(existing, other, k - 1).push(existing_index(existing, k - 1))
    } else {
        chain_upto(existing, other, k - 1)
    }
}

/// The anchors of a valid choice, read in `existing`, form a rising chain
/// as long as they are many.
proof fn lemma_chain_upto(
    ids: Seq<i64>,
    old: Map<i64, i64>,
    existing: Seq<(usize, i64)>,
    other: Seq<bool>,
    k: int,
)
    requires
        anchors_valid(ids, old, other),
        0 <= k <= ids.len(),
        forall|s: int| 0 <= s < existing.len() ==> #[trigger] existing[s].0 < ids.len() && old.contains_key(
            ids[existing[s].0 as int],
        ) && existing[s].1 == old[ids[existing[s].0 as int]],
        forall|s: int, t: int| 0 <= s < t < existing.len() ==> #[trigger] existing[s].0 < #[trigger] existing[t].0,
        forall|j: int|
            0 <= j < ids.len() && old.contains_key(#[trigger] ids[j]) ==> exists|s: int|
                0 <= s < existing.len() && #[trigger] existing[s].0 == j,
    ensures
        rising(existing, chain_upto(existing, other, k)),
        chain_upto(existing, other, k).len() == anchor_count(other.take(k)),
        forall|i: int|
            0 <= i < chain_upto(existing, other, k).len() ==> existing[#[trigger] chain_upto(existing, other, k)[i]].0
                < k && other[existing[chain_upto(existing, other, k)[i]].0 as int],
    decreases k,
{
    let c = chain_upto(existing, other, k);
    if k > 0 {
        lemma_chain_upto(ids, old, existing, other, k - 1);
        let prev = chain_upto(existing, other, k - 1);
        assert(other.take(k).drop_last() =~= other.take(k - 1));
        if other[k - 1] {
            assert(old.contains_key(ids[k - 1]));
            let s = existing_index(existing, k - 1);
            assert(0 <= s < existing.len() && existing[s].0 == k - 1);
            assert(c == prev.push(s));
            assert forall|i: int, j: int| 0 <= i < j < c.len() implies #[trigger] c[i] < #[trigger] c[j]
                && existing[c[i]].1 < existing[c[j]].1 by {
                if j == c.len() - 1 {
                    let a = existing[c[i]].0 as int;
                    assert(a < k - 1);
                    assert(other[a]);
                    if c[i] >= s {
                        if c[i] > s {
                            assert(existing[s].0 < existing[c[i]].0);
                        }
                    }
                    assert(old[ids[a]] < old[ids[k - 1]]);
                } else {
                    assert(c[i] == prev[i] && c[j] == prev[j]);
                }
            }
        } else {
            assert(c == prev);
        }
    }
}

/// One step of the longest-chain search keeps its invariants: the tails
/// stay sorted, the chain behind the tail of each length has that length,
/// and no rising chain ending before the next item is longer than the
/// tails or ends lower than the tail of its length.
proof fn lemma_tails_step(
    existing: Seq<(usize, i64)>,
    tails: Seq<usize>,
    tails2: Seq<usize>,
    previous: Seq<Option<usize>>,
    previous2: Seq<Option<usize>>,
    s: int,
    lo: int,
)
    requires
        0 <= s < existing.len() <= usize::MAX,
        previous.len() == s,
        0 <= lo <= tails.len(),
        forall|t: int| 0 <= t < tails.len() ==> #[trigger] tails[t] < s,
        forall|a: int, b: int|
            0 <= a < b < tails.len() ==> existing[#[trigger] tails[a] as int].1 < existing[#[trigger] tails[b] as int].1,
        forall|t: int| 0 <= t < tails.len() ==> link_len(previous, #[trigger] tails[t] as int) == t + 1,
        forall|c: Seq<int>|
            #[trigger] rising(existing, c) && c.len() > 0 && c.last() < s ==> c.len() <= tails.len()
                && existing[tails[c.len() - 1] as int].1 <= existing[c.last()].1,
        forall|t: int| 0 <= t < lo ==> existing[#[trigger] tails[t] as int].1 < existing[s].1,
        forall|t: int| lo <= t < tails.len() ==> existing[#[trigger] tails[t] as int].1 >= existing[s].1,
        previous2 == previous.push(if lo > 0 { Some(tails[lo - 1]) } else { None }),
        tails2 == (if lo == tails.len() { tails.push(s as usize) } else { tails.update(lo, s as usize) }),
    ensures
        forall|t: int| 0 <= t < tails2.len() ==> #[trigger] tails2[t] < s + 1,
        forall|a: int, b: int|
            0 <= a < b < tails2.len() ==> existing[#[trigger] tails2[a] as int].1 < existing[#[trigger] tails2[b] as int].1,
        forall|t: int| 0 <= t < tails2.len() ==> link_len(previous2, #[trigger] tails2[t] as int) == t + 1,
        forall|c: Seq<int>|
            #[trigger] rising(existing, c) && c.len() > 0 && c.last() < s + 1 ==> c.len() <= tails2.len()
                && existing[tails2[c.len() - 1] as int].1 <= existing[c.last()].1,
{
    let v = existing[s].1;
    assert forall|t: int| 0 <= t < tails2.len() implies #[trigger] tails2[t] < s + 1 by {
        if t != lo {
            assert(tails2[t] == tails[t]);
        }
    }
    assert forall|a: int, b: int| 0 <= a < b < tails2.len() implies existing[#[trigger] tails2[a] as int].1
        < existing[#[trigger] tails2[b] as int].1 by {
        if a == lo {
            assert(existing[tails[b] as int].1 > existing[tails[a] as int].1);
        } else if b == lo {
            assert(tails2[a] == tails[a]);
        } else {
            assert(tails2[a] == tails[a] && tails2[b] == tails[b]);
        }
    }
    assert forall|t: int| 0 <= t < tails2.len() implies link_len(previous2, #[trigger] tails2[t] as int) == t + 1 by {
        if t == lo {
            assert(tails2[t] == s);
            if lo > 0 {
                assert(previous2[s] == Some(tails[lo - 1]));
                assert(tails[lo - 1] < s);
                lemma_link_len_push(previous, previous2[s], tails[lo - 1] as int);
                assert(link_len(previous, tails[lo - 1] as int) == lo);
            } else {
                assert(previous2[s] is None);
            }
        } else {
            assert(tails2[t] == tails[t]);
            lemma_link_len_push(previous, previous2[s], tails[t] as int);
            assert(previous2 == previous.push(previous2[s]));
        }
    }
    assert forall|c: Seq<int>| #[trigger] rising(existing, c) && c.len() > 0 && c.last() < s + 1 implies c.len()
        <= tails2.len() && existing[tails2[c.len() - 1] as int].1 <= existing[c.last()].1 by {
        let n = c.len();
        if c.last() < s {
            assert(n <= tails.len() && existing[tails[n - 1] as int].1 <= existing[c.last()].1);
            if n - 1 == lo {
                assert(tails2[lo] == s);
                assert(existing[tails[lo] as int].1 >= v);
            } else {
                assert(tails2[n - 1] == tails[n - 1]);
            }
        } else {
            assert(c.last() == s);
            if n == 1 {
                if lo == 0 {
                    assert(tails2[0] == s);
                } else {
                    assert(tails2[0] == tails[0]);
                }
            } else {
                let d = c.drop_last();
                assert(rising(existing, d)) by {
                    assert forall|i: int| 0 <= i < d.len() implies 0 <= #[trigger] d[i] < existing.len() by {
                        assert(d[i] == c[i]);
                    }
                    assert forall|i: int, j: int| 0 <= i < j < d.len() implies #[trigger] d[i] < #[trigger] d[j]
                        && existing[d[i]].1 < existing[d[j]].1 by {
                        assert(d[i] == c[i] && d[j] == c[j]);
                    }
                }
                assert(d.last() == c[n - 2]);
                assert(c[n - 2] < c[n - 1]);
                assert(existing[c[n - 2]].1 < existing[c[n - 1]].1);
                assert(n - 1 <= tails.len());
                assert(existing[tails[n - 2] as int].1 <= existing[d.last()].1);
                assert(n - 2 < lo);
                if n - 1 < lo {
                    assert(tails2[n - 1] == tails[n - 1]);
                } else {
                    assert(tails2[lo] == s);
                }
            }
        }
    }
}

/// There are no more anchors than items, and as many only when every item
/// is one.
proof fn lemma_count_bound(anchors: Seq<bool>)
    ensures
        anchor_count(anchors) <= anchors.len(),
        anchor_count(anchors) == anchors.len() ==> forall|k: int| 0 <= k < anchors.len() ==> #[trigger] anchors[k],
    decreases anchors.len(),
{
    if anchors.len() > 0 {
        let d = anchors.drop_last();
        lemma_count_bound(d);
        if anchor_count(anchors) == anchors.len() {
            assert(anchor_count(d) == d.len());
            assert(anchors.last());
            assert forall|k: int| 0 <= k < anchors.len() implies #[trigger] anchors[k] by {
                if k < anchors.len() - 1 {
                    assert(d[k] == anchors[k]);
                }
            }
        }
    }
}

/// Every item has a stored position, and those positions already increase
/// along `ids`.
pub open spec fn positions_in_order(ids: Seq<i64>, old: Map<i64, i64>) -> bool {
    &&& forall|k: int| 0 <= k < ids.len() ==> old.contains_key(#[trigger] ids[k])
    &&& forall|a: int, b: int| 0 <= a < b < ids.len() ==> old[#[trigger] ids[a]] < old[#[trigger] ids[b]]
}

/// Items whose stored positions already increase keep them all.
pub proof fn lemma_positions_in_order_are_kept(ids: Seq<i64>, old: Map<i64, i64>, m: Map<i64, i64>)
    requires
        ids.no_duplicates(),
        positions_in_order(ids, old),
        assignment_ok(ids, old, m),
    ensures
        forall|k: int| 0 <= k < ids.len() ==> m[#[trigger] ids[k]] == old[ids[k]],
{
    let anchors = choose|anchors: Seq<bool>|
        #[trigger] anchors_valid(ids, old, anchors) && most_anchors(ids, old, anchors) && (if fill_fits(
            ids,
            old,
            anchors,
        ) {
            map_of(ids, filled(ids, old, anchors), m)
        } else {
            fresh_positions(ids, Ok(m))
        });
    let all = Seq::new(ids.len(), |k: int| true);
    assert(anchors_valid(ids, old, all));
    lemma_count_bound(all);
    lemma_count_bound(anchors);
    assert forall|k: int| 0 <= k < all.len() implies #[trigger] all[k] by {}
    if anchor_count(all) < all.len() {
        lemma_count_mark_all(all);
    }
    assert(anchor_count(anchors) == ids.len());
    assert(fill_fits(ids, old, anchors));
    assert forall|k: int| 0 <= k < ids.len() implies m[#[trigger] ids[k]] == old[ids[k]] by {
        assert(anchors[k]);
        assert forall|l: int| k < l < ids.len() implies ids[l] != ids[k] by {}
        assert(filled(ids, old, anchors)[k] == old[ids[k]]);
    }
}

/// A sequence of anchors that are all set counts every item.
proof fn lemma_count_mark_all(anchors: Seq<bool>)
    requires
        forall|k: int| 0 <= k < anchors.len() ==> #[trigger] anchors[k],
    ensures
        anchor_count(anchors) == anchors.len(),
    decreases anchors.len(),
{
    if anchors.len() > 0 {
        assert forall|k: int| 0 <= k < anchors.len() - 1 implies #[trigger] anchors.drop_last()[k] by {
            assert(anchors.drop_last()[k] == anchors[k]);
        }
        lemma_count_mark_all(anchors.drop_last());
    }
}

/// The items of `ids` that have a stored position, in order: each one's
/// index in `ids` and its stored position.
pub open spec fn stored_items(ids: Seq<i64>, old: Map<i64, i64>) -> Seq<(usize, i64)>
    decreases ids.len(),
{
    if ids.len() == 0 {
        Seq::empty()
    } else {
        let rest = stored_items(ids.drop_last(), old);
        if old.contains_key(ids.last()) {
            rest.push(((ids.len() - 1) as usize, old[ids.last()]))
        } else {
            rest
        }
    }
}

/// The stored positions of `items`, in order.
pub open spec fn item_positions(items: Seq<(usize, i64)>) -> Seq<i64> {
    Seq::new(items.len(), |s: int| items[s].1)
}

/// The length of the longest run of strictly rising values of `p` that ends
/// with `p[t]`.
pub open spec fn run_len(p: Seq<i64>, t: int) -> nat
    decreases t + 1, 0int,
{
    if 0 <= t < p.len() {
        1 + best_before(p, t, t)
    } else {
        0
    }
}

/// The longest run that ends before index `u` with a value below `p[t]`.
pub open spec fn best_before(p: Seq<i64>, t: int, u: int) -> nat
    decreases u, 1int,
{
    if u <= 0 {
        0
    } else {
        let rest = best_before(p, t, u - 1);
        if p[u - 1] < p[t] && run_len(p, u - 1) > rest {
            run_len(p, u - 1)
        } else {
            rest
        }
    }
}

/// The last index before `u` whose longest rising run has length `r`, or
/// -1 where there is none.
pub open spec fn last_with(p: Seq<i64>, r: nat, u: int) -> int
    decreases u,
{
    if u <= 0 {
        -1
    } else if run_len(p, u - 1) == r {
        u - 1
    } else {
        last_with(p, r, u - 1)
    }
}

/// The length of the longest rising run among the first `u` values.
pub open spec fn max_run(p: Seq<i64>, u: int) -> nat
    decreases u,
{
    if u <= 0 {
        0
    } else {
        let a = max_run(p, u - 1);
        let b = run_len(p, u - 1);
        if b > a {
            b
        } else {
            a
        }
    }
}

/// [`last_with`] lies before `u`, names an item whose run has length `r`,
/// and no later item before `u` has a run of that length.
pub proof fn lemma_last_with(p: Seq<i64>, r: nat, u: int)
    requires
        0 <= u,
    ensures
        last_with(p, r, u) < u,
        last_with(p, r, u) >= -1,
        last_with(p, r, u) >= 0 ==> run_len(p, last_with(p, r, u)) == r,
        forall|k: int| last_with(p, r, u) < k < u ==> #[trigger] run_len(p, k) != r,
    decreases u,
{
    if u > 0 {
        lemma_last_with(p, r, u - 1);
    }
}

/// The rising run behind `t`, read back from its end: `t`, then the last
/// earlier item whose run is one shorter, and so on.
pub open spec fn picked_from(p: Seq<i64>, t: int) -> Set<int>
    decreases t,
{
    if 0 <= t < p.len() {
        if run_len(p, t) > 1 {
            let k = last_with(p, (run_len(p, t) - 1) as nat, t);
            proof {
                lemma_last_with(p, (run_len(p, t) - 1) as nat, t);
            }
            if k >= 0 {
                picked_from(p, k).insert(t)
            } else {
                set![t]
            }
        } else {
            set![t]
        }
    } else {
        Set::empty()
    }
}

/// The longest rising run of `p` that the patience method keeps: the one
/// read back from the last item whose run is longest.
pub open spec fn picked(p: Seq<i64>) -> Set<int> {
    picked_from(p, last_with(p, max_run(p, p.len() as int), p.len() as int))
}

/// The anchors that `assign_sparse_positions` keeps: the items of the
/// longest rising run of stored positions that [`picked`] reads back.
pub open spec fn patience_anchors(ids: Seq<i64>, old: Map<i64, i64>) -> Seq<bool> {
    let items = stored_items(ids, old);
    let chosen = picked(item_positions(items));
    Seq::new(ids.len(), |k: int| exists|s: int| #[trigger] chosen.contains(s) && items[s].0 == k)
}

proof fn lemma_best_before_ge(p: Seq<i64>, t: int, u: int, k: int)
    requires
        0 <= k < u,
        p[k] < p[t],
    ensures
        best_before(p, t, u) >= run_len(p, k),
    decreases u,
{
    if k < u - 1 {
        lemma_best_before_ge(p, t, u - 1, k);
    }
}

proof fn lemma_best_before_le(p: Seq<i64>, t: int, u: int, b: nat)
    requires
        forall|k: int| 0 <= k < u && p[k] < p[t] ==> #[trigger] run_len(p, k) <= b,
    ensures
        best_before(p, t, u) <= b,
    decreases u,
{
    if u > 0 {
        lemma_best_before_le(p, t, u - 1, b);
        if p[u - 1] < p[t] {
            assert(run_len(p, u - 1) <= b);
        }
    }
}

proof fn lemma_best_before_attained(p: Seq<i64>, t: int, u: int)
    requires
        best_before(p, t, u) > 0,
    ensures
        exists|k: int| 0 <= k < u && p[k] < p[t] && #[trigger] run_len(p, k) == best_before(p, t, u),
    decreases u,
{
    if u > 0 {
        if best_before(p, t, u - 1) == best_before(p, t, u) {
            lemma_best_before_attained(p, t, u - 1);
            let k = choose|k: int| 0 <= k < u - 1 && p[k] < p[t] && #[trigger] run_len(p, k) == best_before(p, t, u - 1);
            assert(run_len(p, k) == best_before(p, t, u));
        } else {
            assert(run_len(p, u - 1) == best_before(p, t, u));
        }
    }
}

proof fn lemma_max_run(p: Seq<i64>, u: int)
    requires
        0 <= u <= p.len(),
    ensures
        forall|k: int| 0 <= k < u ==> #[trigger] run_len(p, k) <= max_run(p, u),
        max_run(p, u) > 0 ==> last_with(p, max_run(p, u), u) >= 0,
        max_run(p, u) == 0 ==> u == 0,
    decreases u,
{
    if u > 0 {
        lemma_max_run(p, u - 1);
        let r = max_run(p, u);
        if run_len(p, u - 1) != r {
            assert(last_with(p, r, u) == last_with(p, r, u - 1));
        }
    }
}

proof fn lemma_picked_from_below(p: Seq<i64>, t: int)
    ensures
        forall|s: int| #[trigger] picked_from(p, t).contains(s) ==> 0 <= s <= t,
    decreases t,
{
    if 0 <= t < p.len() && run_len(p, t) > 1 {
        let k = last_with(p, (run_len(p, t) - 1) as nat, t);
        lemma_last_with(p, (run_len(p, t) - 1) as nat, t);
        if k >= 0 {
            lemma_picked_from_below(p, k);
            assert(picked_from(p, t) == picked_from(p, k).insert(t));
        } else {
            assert(picked_from(p, t) == set![t]);
        }
    } else if 0 <= t < p.len() {
        assert(picked_from(p, t) == set![t]);
    }
}

/// One step of the patience method keeps the tails at the last item of each
/// run length, and links each item to the last earlier item whose run is one
/// shorter.
proof fn lemma_choice_step(
    p: Seq<i64>,
    tails: Seq<usize>,
    tails2: Seq<usize>,
    previous: Seq<Option<usize>>,
    previous2: Seq<Option<usize>>,
    s: int,
    lo: int,
)
    requires
        0 <= s < p.len() <= usize::MAX,
        previous.len() == s,
        0 <= lo <= tails.len(),
        forall|t: int| 0 <= t < tails.len() ==> #[trigger] tails[t] as int == last_with(p, (t + 1) as nat, s),
        max_run(p, s) == tails.len(),
        forall|t: int|
            0 <= t < s ==> #[trigger] previous[t] == (if run_len(p, t) > 1 {
                Some(last_with(p, (run_len(p, t) - 1) as nat, t) as usize)
            } else {
                None
            }),
        forall|t: int| 0 <= t < lo ==> p[#[trigger] tails[t] as int] < p[s],
        forall|t: int| lo <= t < tails.len() ==> p[#[trigger] tails[t] as int] >= p[s],
        previous2 == previous.push(if lo > 0 { Some(tails[lo - 1]) } else { None }),
        tails2 == (if lo == tails.len() { tails.push(s as usize) } else { tails.update(lo, s as usize) }),
    ensures
        run_len(p, s) == lo + 1,
        forall|t: int| 0 <= t < tails2.len() ==> #[trigger] tails2[t] as int == last_with(p, (t + 1) as nat, s + 1),
        max_run(p, s + 1) == tails2.len(),
        forall|t: int|
            0 <= t < s + 1 ==> #[trigger] previous2[t] == (if run_len(p, t) > 1 {
                Some(last_with(p, (run_len(p, t) - 1) as nat, t) as usize)
            } else {
                None
            }),
{
    lemma_max_run(p, s);
    if lo > 0 {
        let k = tails[lo - 1] as int;
        lemma_last_with(p, lo as nat, s);
        assert(last_with(p, lo as nat, s) == k);
        assert(run_len(p, k) == lo);
        lemma_best_before_ge(p, s, s, k);
    }
    assert forall|k: int| 0 <= k < s && p[k] < p[s] implies #[trigger] run_len(p, k) <= lo by {
        let r = run_len(p, k);
        if r > lo {
            assert(r <= tails.len());
            let i = r - 1;
            let k2 = tails[i] as int;
            lemma_last_with(p, r, s);
            assert(last_with(p, (i + 1) as nat, s) == k2);
            assert(k2 >= k);
            if k2 > k {
                assert(run_len(p, k2) == r);
                if p[k] < p[k2] {
                    lemma_best_before_ge(p, k2, k2, k);
                }
            }
            assert(p[tails[i] as int] >= p[s]);
        }
    }
    lemma_best_before_le(p, s, s, lo as nat);
    assert(run_len(p, s) == lo + 1);
    assert forall|t: int| 0 <= t < tails2.len() implies #[trigger] tails2[t] as int == last_with(p, (t + 1) as nat, s + 1) by {
        if t != lo {
            assert(tails2[t] == tails[t]);
            assert(run_len(p, s) != (t + 1) as nat);
            assert(last_with(p, (t + 1) as nat, s + 1) == last_with(p, (t + 1) as nat, s));
        } else {
            assert(tails2[t] as int == s);
            assert(run_len(p, s) == (t + 1) as nat);
            assert(last_with(p, (t + 1) as nat, s + 1) == s);
        }
    }
    assert forall|t: int|
        0 <= t < s + 1 implies #[trigger] previous2[t] == (if run_len(p, t) > 1 {
            Some(last_with(p, (run_len(p, t) - 1) as nat, t) as usize)
        } else {
            None
        }) by {
        if t < s {
            assert(previous2[t] == previous[t]);
        } else if lo > 0 {
            assert(tails[lo - 1] as int == last_with(p, lo as nat, s));
        }
    }
}

/// What a successful assignment of positions to `ids` promises: every
/// identifier has a position; for distinct identifiers the positions
/// increase along `ids`, and they keep the stored positions of the largest
/// run of anchors that [`patience_anchors`] picks and fill the gaps between
/// them, or are all fresh.
pub open spec fn assignment_ok(ids: Seq<i64>, old: Map<i64, i64>, m: Map<i64, i64>) -> bool {
    &&& m.dom() == ids.to_set()
    &&& ids.no_duplicates() ==> forall|a: int, b: int|
        0 <= a < b < ids.len() ==> #[trigger] m[ids[a]] < #[trigger] m[ids[b]]
    &&& ids.no_duplicates() ==> exists|anchors: Seq<bool>|
        #[trigger] anchors_valid(ids, old, anchors) && most_anchors(ids, old, anchors) && anchors
            == patience_anchors(ids, old) && (if fill_fits(
            ids,
            old,
            anchors,
        ) {
            map_of(ids, filled(ids, old, anchors), m)
        } else {
            fresh_positions(ids, Ok(m))
        })
}

/// The stored items of `ids` to keep as anchors: the longest rising run of
/// stored positions that the patience method reads back.
fn keep_anchors(ids: &[i64], old_positions: &HashMap<i64, i64>) -> (anchors: Vec<bool>)
    ensures
        anchors_valid(ids@, old_positions@, anchors@),
        most_anchors(ids@, old_positions@, anchors@),
        anchors@ == patience_anchors(ids@, old_positions@),
{
    let ghost old = old_positions@;
    let n = ids.len();
    let mut existing: Vec<(usize, i64)> = Vec::new();
    for index in 0..n
        invariant
            n == ids@.len(),
            old == old_positions@,
            existing@ == stored_items(ids@.take(index as int), old),
            forall|s: int|
                0 <= s < existing@.len() ==> #[trigger] existing@[s].0 < index && old.contains_key(
                    ids@[existing@[s].0 as int],
                ) && existing@[s].1 == old[ids@[existing@[s].0 as int]],
            forall|s: int, t: int|
                0 <= s < t < existing@.len() ==> #[trigger] existing@[s].0 < #[trigger] existing@[t].0,
            forall|j: int|
                0 <= j < index && old.contains_key(#[trigger] ids@[j]) ==> exists|s: int|
                    0 <= s < existing@.len() && #[trigger] existing@[s].0 == j,
    {
        let ghost before = existing@;
        proof {
            assert(ids@.take(index + 1).drop_last() =~= ids@.take(index as int));
        }
        match old_positions.get(&ids[index]) {
            Some(position) => {
                existing.push((index, *position));
                proof {
                    assert(existing@[existing@.len() - 1].0 == index);
                    assert forall|j: int|
                        0 <= j < index + 1 && old.contains_key(#[trigger] ids@[j]) implies exists|s: int|
                        0 <= s < existing@.len() && #[trigger] existing@[s].0 == j by {
                        if j < index {
                            let s0 = choose|s: int| 0 <= s < before.len() && #[trigger] before[s].0 == j;
                            assert(existing@[s0] == before[s0]);
                        }
                    }
                }
            },
            None => {},
        }
    }
    let m_len = existing.len();
    let ghost pos = item_positions(existing@);
    proof {
        assert(ids@.take(n as int) =~= ids@);
        assert(existing@ == stored_items(ids@, old));
    }
    let mut tails: Vec<usize> = Vec::new();
    let mut previous: Vec<Option<usize>> = Vec::new();
    for s in 0..m_len
        invariant
            m_len == existing@.len(),
            pos == item_positions(existing@),
            forall|t: int| 0 <= t < tails@.len() ==> #[trigger] tails@[t] as int == last_with(pos, (t + 1) as nat, s as int),
            max_run(pos, s as int) == tails@.len(),
            forall|t: int|
                0 <= t < s ==> #[trigger] previous@[t] == (if run_len(pos, t) > 1 {
                    Some(last_with(pos, (run_len(pos, t) - 1) as nat, t) as usize)
                } else {
                    None
                }),
            previous@.len() == s,
            forall|t: int| 0 <= t < tails@.len() ==> #[trigger] tails@[t] < s,
            forall|t: int|
                0 <= t < s ==> match #[trigger] previous@[t] {
                    Some(p) => p < t && existing@[p as int].1 < existing@[t].1,
                    None => true,
                },
            forall|a: int, b: int|
                0 <= a < b < tails@.len() ==> existing@[#[trigger] tails@[a] as int].1 < existing@[#[trigger] tails@[b] as int].1,
            forall|t: int| 0 <= t < tails@.len() ==> link_len(previous@, #[trigger] tails@[t] as int) == t + 1,
            forall|c: Seq<int>|
                #[trigger] rising(existing@, c) && c.len() > 0 && c.last() < s ==> c.len() <= tails@.len()
                    && existing@[tails@[c.len() - 1] as int].1 <= existing@[c.last()].1,
    {
        let position = existing[s].1;
        let mut lo: usize = 0;
        let mut hi: usize = tails.len();
        while lo < hi
            invariant
                m_len == existing@.len(),
                s < m_len,
                position == existing@[s as int].1,
                forall|t: int| 0 <= t < tails@.len() ==> #[trigger] tails@[t] < s,
                forall|a: int, b: int|
                    0 <= a < b < tails@.len() ==> existing@[#[trigger] tails@[a] as int].1 < existing@[#[trigger] tails@[b] as int].1,
                lo <= hi <= tails@.len(),
                forall|t: int| 0 <= t < lo ==> existing@[#[trigger] tails@[t] as int].1 < position,
                forall|t: int| hi <= t < tails@.len() ==> existing@[#[trigger] tails@[t] as int].1 >= position,
            decreases hi - lo,
        {
            let mid = lo + (hi - lo) / 2;
            if existing[tails[mid]].1 < position {
                lo = mid + 1;
            } else {
                hi = mid;
            }
        }
        let ghost old_tails = tails@;
        let ghost old_previous = previous@;
        if lo > 0 {
            previous.push(Some(tails[lo - 1]));
        } else {
            previous.push(None);
        }
        if lo == tails.len() {
            tails.push(s);
        } else {
            tails.set(lo, s);
        }
        proof {
            lemma_tails_step(existing@, old_tails, tails@, old_previous, previous@, s as int, lo as int);
            assert forall|t: int| 0 <= t < lo implies pos[#[trigger] old_tails[t] as int] < pos[s as int] by {
                assert(existing@[old_tails[t] as int].1 < position);
            }
            assert forall|t: int| lo <= t < old_tails.len() implies pos[#[trigger] old_tails[t] as int] >= pos[s as int] by {
                assert(existing@[old_tails[t] as int].1 >= position);
            }
            lemma_choice_step(pos, old_tails, tails@, old_previous, previous@, s as int, lo as int);
        }
    }
    let mut anchors: Vec<bool> = Vec::new();
    for index in 0..n
        invariant
            anchors@.len() == index,
            forall|j: int| 0 <= j < index ==> !#[trigger] anchors@[j],
    {
        anchors.push(false);
    }
    let mut cursor: Option<usize> = if tails.len() > 0 {
        Some(tails[tails.len() - 1])
    } else {
        None
    };
    let ghost top = last_with(pos, max_run(pos, m_len as int), m_len as int);
    proof {
        lemma_count_none(anchors@);
        if tails@.len() > 0 {
            assert(link_len(previous@, tails@[tails@.len() - 1] as int) == tails@.len());
        }
        lemma_max_run(pos, m_len as int);
        lemma_last_with(pos, max_run(pos, m_len as int), m_len as int);
        if tails@.len() == 0 {
            assert(m_len == 0);
        }
    }
    loop
        invariant
            pos == item_positions(existing@),
            m_len == pos.len(),
            forall|t: int|
                0 <= t < m_len ==> #[trigger] previous@[t] == (if run_len(pos, t) > 1 {
                    Some(last_with(pos, (run_len(pos, t) - 1) as nat, t) as usize)
                } else {
                    None
                }),
            cursor matches Some(c) ==> picked_from(pos, c as int).subset_of(picked_from(pos, top)),
            cursor is None ==> picked_rest(pos, cursor) == Set::<int>::empty(),
            forall|a: int|
                0 <= a < n ==> (#[trigger] anchors@[a] <==> exists|s: int|
                    0 <= s < m_len && existing@[s].0 == a && #[trigger] picked_from(pos, top).contains(s)
                        && !picked_rest(pos, cursor).contains(s)),
            anchor_count(anchors@) + (match cursor {
                Some(c) => link_len(previous@, c as int),
                None => 0nat,
            }) == tails@.len(),
            n == ids@.len(),
            old == old_positions@,
            anchors@.len() == n,
            m_len == existing@.len(),
            previous@.len() == m_len,
            forall|s: int|
                0 <= s < existing@.len() ==> #[trigger] existing@[s].0 < n && old.contains_key(
                    ids@[existing@[s].0 as int],
                ) && existing@[s].1 == old[ids@[existing@[s].0 as int]],
            forall|s: int, t: int|
                0 <= s < t < existing@.len() ==> #[trigger] existing@[s].0 < #[trigger] existing@[t].0,
            forall|t: int|
                0 <= t < m_len ==> match #[trigger] previous@[t] {
                    Some(p) => p < t && existing@[p as int].1 < existing@[t].1,
                    None => true,
                },
            cursor matches Some(c) ==> c < m_len,
            forall|a: int| 0 <= a < n && #[trigger] anchors@[a] ==> old.contains_key(ids@[a]),
            forall|a: int, b: int|
                0 <= a < b < n && #[trigger] anchors@[a] && #[trigger] anchors@[b] ==> old[ids@[a]]
                    < old[ids@[b]],
            forall|a: int|
                0 <= a < n && #[trigger] anchors@[a] ==> (cursor matches Some(c) ==> existing@[c as int].0
                    < a && existing@[c as int].1 < old[ids@[a]]),
        ensures
            cursor is None,
        decreases (match cursor {
            Some(c) => c as int + 1,
            None => 0int,
        }),
    {
        match cursor {
            Some(s) => {
                let e = existing[s].0;
                proof {
                    if anchors@[e as int] {
                        assert(existing@[s as int].0 < e);
                    }
                    lemma_count_mark(anchors@, e as int);
                }
                let ghost before = anchors@;
                anchors.set(e, true);
                let next = previous[s];
                proof {
                    if let Some(p) = next {
                        assert(existing@[p as int].0 < existing@[s as int].0);
                    }
                    lemma_picked_step(pos, s as int, next);
                    assert forall|a: int|
                        0 <= a < n implies (#[trigger] anchors@[a] <==> exists|t: int|
                            0 <= t < m_len && existing@[t].0 == a && #[trigger] picked_from(pos, top).contains(t)
                                && !picked_rest(pos, next).contains(t)) by {
                        if a == e {
                            assert(picked_from(pos, s as int).contains(s as int));
                            assert(existing@[s as int].0 == a && picked_from(pos, top).contains(s as int));
                        } else {
                            assert(anchors@[a] == before[a]);
                            if before[a] {
                                let t = choose|t: int|
                                    0 <= t < m_len && existing@[t].0 == a && #[trigger] picked_from(pos, top).contains(t)
                                        && !picked_rest(pos, Some(s)).contains(t);
                                assert(!picked_rest(pos, next).contains(t));
                            }
                            if exists|t: int|
                                0 <= t < m_len && existing@[t].0 == a && #[trigger] picked_from(pos, top).contains(t)
                                    && !picked_rest(pos, next).contains(t) {
                                let t = choose|t: int|
                                    0 <= t < m_len && existing@[t].0 == a && #[trigger] picked_from(pos, top).contains(t)
                                        && !picked_rest(pos, next).contains(t);
                                if t != s as int {
                                    assert(!picked_rest(pos, Some(s)).contains(t));
                                } else {
                                    assert(existing@[t].0 == e);
                                }
                            }
                        }
                    }
                }
                cursor = next;
            },
            None => break,
        }
    }
    proof {
        assert(anchors_valid(ids@, old, anchors@));
        assert forall|other: Seq<bool>| #[trigger] anchors_valid(ids@, old, other) implies anchor_count(other)
            <= anchor_count(anchors@) by {
            lemma_chain_upto(ids@, old, existing@, other, n as int);
            assert(other.take(n as int) =~= other);
            let c = chain_upto(existing@, other, n as int);
            if c.len() > 0 {
                assert(0 <= c[c.len() - 1] < existing@.len());
            }
        }
        assert(most_anchors(ids@, old, anchors@));
        assert(existing@ == stored_items(ids@, old));
        assert forall|k: int| 0 <= k < n implies #[trigger] anchors@[k] == patience_anchors(ids@, old)[k] by {
            if exists|t: int| #[trigger] picked(pos).contains(t) && existing@[t].0 == k {
                let t = choose|t: int| #[trigger] picked(pos).contains(t) && existing@[t].0 == k;
                lemma_picked_from_below(pos, top);
                assert(picked_from(pos, top).contains(t));
                assert(!picked_rest(pos, cursor).contains(t));
            }
            if anchors@[k] {
                let t = choose|t: int|
                    0 <= t < m_len && existing@[t].0 == k && #[trigger] picked_from(pos, top).contains(t)
                        && !picked_rest(pos, cursor).contains(t);
                assert(picked(pos).contains(t));
            }
        }
        assert(anchors@ =~= patience_anchors(ids@, old));
    }
    anchors
}

/// What of the rising run is still to be marked while it is read back from
/// `cursor`.
spec fn picked_rest(p: Seq<i64>, cursor: Option<usize>) -> Set<int> {
    match cursor {
        Some(c) => picked_from(p, c as int),
        None => Set::empty(),
    }
}

proof fn lemma_picked_step(p: Seq<i64>, c: int, next: Option<usize>)
    requires
        0 <= c < p.len() <= usize::MAX,
        next == (if run_len(p, c) > 1 {
            Some(last_with(p, (run_len(p, c) - 1) as nat, c) as usize)
        } else {
            None
        }),
    ensures
        picked_from(p, c) == picked_rest(p, next).insert(c),
        !picked_rest(p, next).contains(c),
        picked_rest(p, next).subset_of(picked_from(p, c)),
        next matches Some(k) ==> k < c,
{
    if run_len(p, c) > 1 {
        let r = (run_len(p, c) - 1) as nat;
        lemma_best_before_attained(p, c, c);
        let k0 = choose|k: int| 0 <= k < c && p[k] < p[c] && #[trigger] run_len(p, k) == best_before(p, c, c);
        lemma_last_with(p, r, c);
        let k = last_with(p, r, c);
        assert(k >= k0);
        assert(next == Some(k as usize));
        assert((k as usize) as int == k);
        lemma_picked_from_below(p, k);
        assert(picked_from(p, c) == picked_from(p, k).insert(c));
    } else {
        assert(picked_from(p, c) =~= Set::<int>::empty().insert(c));
    }
}

/// Sort positions for `ids` in order that keep the stored positions in
/// `old_positions` of the longest run of items whose stored positions
/// already increase, and place the others in the gaps between them. Where
/// several runs are longest, the one kept ends at the last item that ends a
/// longest run, and each of its items is preceded by the last earlier item
/// whose own run is one shorter ([`patience_anchors`]). Where a gap is too
/// narrow, every item gets a fresh position instead.
pub fn assign_sparse_positions(ids: &[i64], old_positions: &HashMap<i64, i64>) -> (r: Result<
    HashMap<i64, i64>,
    String,
>)
    ensures
        ids@.len() == 0 ==> (r matches Ok(m) && m@ == Map::<i64, i64>::empty()),
        r matches Ok(m) ==> m@.dom() == ids@.to_set(),
        r matches Err(e) ==> e@ == "Too many items to assign sort positions"@,
        ids@.no_duplicates() ==> (r matches Ok(m) ==> forall|a: int, b: int|
            0 <= a < b < ids@.len() ==> #[trigger] m@[ids@[a]] < #[trigger] m@[ids@[b]]),
        r matches Ok(m) ==> assignment_ok(ids@, old_positions@, m@),
        ids@.no_duplicates() ==> exists|anchors: Seq<bool>|
            #[trigger] anchors_valid(ids@, old_positions@, anchors) && most_anchors(ids@, old_positions@, anchors)
                && anchors == patience_anchors(ids@, old_positions@) && (if fill_fits(ids@, old_positions@, anchors) {
                (r matches Ok(m) && map_of(ids@, filled(ids@, old_positions@, anchors), m@))
            } else {
                fresh_positions(ids@, result_view(r))
            }),
{
    let ghost old = old_positions@;
    let n = ids.len();
    if n == 0 {
        let m: HashMap<i64, i64> = HashMap::new();
        proof {
            assert(anchors_valid(ids@, old, Seq::<bool>::empty()));
            assert(patience_anchors(ids@, old) =~= Seq::<bool>::empty());
            assert(m@.dom() =~= ids@.to_set());
        }
        return Ok(m);
    }
    let anchors = keep_anchors(ids, old_positions);
    let mut assigned: HashMap<i64, i64> = HashMap::new();
    for index in 0..n
        invariant
            n == ids@.len(),
            old == old_positions@,
            anchors@.len() == n,
            anchors@ == patience_anchors(ids@, old),
            anchors_valid(ids@, old, anchors@),
            assigned@.dom() == anchor_ids(ids@, anchors@, index as int),
            forall|j: int| 0 <= j < index && #[trigger] anchors@[j] ==> assigned@[ids@[j]] == old[ids@[j]],
    {
        if anchors[index] {
            match old_positions.get(&ids[index]) {
                Some(position) => {
                    assigned.insert(ids[index], *position);
                },
                None => {},
            }
            proof {
                assert forall|x: i64|
                    assigned@.dom().contains(x) <==> anchor_ids(ids@, anchors@, index + 1).contains(
                        x,
                    ) by {
                    if x == ids@[index as int] {
                        assert(anchors@[index as int]);
                    }
                    if anchor_ids(ids@, anchors@, index + 1).contains(x) && x != ids@[index as int] {
                        let j = choose|j: int|
                            0 <= j < index + 1 && #[trigger] anchors@[j] && ids@[j] == x;
                        assert(j < index);
                    }
                }
                assert(assigned@.dom() =~= anchor_ids(ids@, anchors@, index + 1));
            }
        } else {
            proof {
                assert forall|x: i64|
                    assigned@.dom().contains(x) <==> anchor_ids(ids@, anchors@, index + 1).contains(
                        x,
                    ) by {
                    if anchor_ids(ids@, anchors@, index + 1).contains(x) {
                        let j = choose|j: int|
                            0 <= j < index + 1 && #[trigger] anchors@[j] && ids@[j] == x;
                        assert(j < index);
                    }
                }
                assert(assigned@.dom() =~= anchor_ids(ids@, anchors@, index + 1));
            }
        }
    }
    let ghost all_anchor_ids = anchor_ids(ids@, anchors@, n as int);
    proof {
        assert(ids@.take(0).to_set().union(all_anchor_ids) =~= assigned@.dom());
        reveal(fill_done);
        reveal(anchors_kept);
    }
    let mut start: usize = 0;
    while start < n
        invariant
            n == ids@.len(),
            old == old_positions@,
            anchors@.len() == n,
            anchors@ == patience_anchors(ids@, old),
            anchors_valid(ids@, old, anchors@),
            most_anchors(ids@, old, anchors@),
            all_anchor_ids == anchor_ids(ids@, anchors@, n as int),
            start <= n,
            start == 0 || start == n || anchors@[start - 1] || anchors@[start as int],
            assigned@.dom() == ids@.take(start as int).to_set().union(all_anchor_ids),
            ids@.no_duplicates() ==> anchors_kept(ids@, old, anchors@, assigned@),
            ids@.no_duplicates() ==> fill_done(ids@, old, anchors@, assigned@, start as int),
        decreases n - start,
    {
        if anchors[start] {
            proof {
                lemma_dom_step(ids@, all_anchor_ids, start as int);
                assert(all_anchor_ids.contains(ids@[start as int]));
                assert(ids@.take(start + 1).to_set().union(all_anchor_ids) =~= assigned@.dom());
                if ids@.no_duplicates() {
                    lemma_fill_done_anchor(ids@, old, anchors@, assigned@, start as int);
                }
            }
            start = start + 1;
        } else {
            let mut end = start + 1;
            while end < n && !anchors[end]
                invariant
                    n == ids@.len(),
                    anchors@.len() == n,
            anchors@ == patience_anchors(ids@, old),
                    start < end <= n,
                    forall|j: int| start <= j < end ==> !#[trigger] anchors@[j],
                decreases n - end,
            {
                end = end + 1;
            }
            let count = end - start;
            proof {
                if start > 0 {
                    assert(all_anchor_ids.contains(ids@[start - 1]));
                }
                if end < n {
                    assert(all_anchor_ids.contains(ids@[end as int]));
                }
            }
            let left: Option<i64> = if start > 0 && anchors[start - 1] {
                match assigned.get(&ids[start - 1]) {
                    Some(v) => Some(*v),
                    None => None,
                }
            } else {
                None
            };
            let right: Option<i64> = if end < n {
                match assigned.get(&ids[end]) {
                    Some(v) => Some(*v),
                    None => None,
                }
            } else {
                None
            };
            proof {
                if ids@.no_duplicates() {
                    lemma_run_fill_neighbours(
                        ids@,
                        old,
                        anchors@,
                        assigned@,
                        start as int,
                        end as int,
                        left,
                        right,
                    );
                }
            }
            let values = match sparse_values_between(left, right, count) {
                Some(values) => values,
                None => {
                    let fallback = evenly_spaced_positions(ids);
                    proof {
                        if ids@.no_duplicates() {
                            assert(run_fill(ids@, old, anchors@, start as int) is None);
                            assert(!fill_fits(ids@, old, anchors@));
                            assert(anchors_valid(ids@, old, anchors@));
                            lemma_fresh_positions_increase(ids@, result_view(fallback));
                        }
                    }
                    return fallback;
                },
            };
            for offset in 0..count
                invariant
                    n == ids@.len(),
                    old == old_positions@,
                    anchors@.len() == n,
            anchors@ == patience_anchors(ids@, old),
                    start < end <= n,
                    count == end - start,
                    values@.len() == count,
                    start == 0 || anchors@[start - 1],
                    end == n || anchors@[end as int],
                    forall|j: int| start <= j < end ==> !#[trigger] anchors@[j],
                    ids@.no_duplicates() ==> forall|k: int|
                        start <= k < end ==> #[trigger] run_fill(ids@, old, anchors@, k) == Some(
                            values@,
                        ),
                    assigned@.dom() == ids@.take(start + offset).to_set().union(all_anchor_ids),
                    ids@.no_duplicates() ==> anchors_kept(ids@, old, anchors@, assigned@),
                    ids@.no_duplicates() ==> fill_done(
                        ids@,
                        old,
                        anchors@,
                        assigned@,
                        start + offset,
                    ),
            {
                let at = start + offset;
                let ghost before = assigned@;
                assigned.insert(ids[at], values[offset]);
                proof {
                    lemma_dom_step(ids@, all_anchor_ids, at as int);
                    assert(assigned@.dom() =~= ids@.take(at + 1).to_set().union(all_anchor_ids));
                    if ids@.no_duplicates() {
                        lemma_fill_insert(
                            ids@,
                            old,
                            anchors@,
                            before,
                            start as int,
                            end as int,
                            at as int,
                            values@,
                        );
                    }
                }
            }
            start = end;
        }
    }
    proof {
        assert(ids@.take(n as int) =~= ids@);
        assert forall|x: i64| all_anchor_ids.contains(x) implies ids@.to_set().contains(x) by {
            let j = choose|j: int| 0 <= j < n && #[trigger] anchors@[j] && ids@[j] == x;
            assert(ids@.contains(ids@[j]));
        }
        assert(assigned@.dom() =~= ids@.to_set());
        if ids@.no_duplicates() {
            lemma_fill_complete(ids@, old, anchors@, assigned@);
            lemma_filled_increases(ids@, old, anchors@);
            let f = filled(ids@, old, anchors@);
            assert forall|a: int, b: int| 0 <= a < b < ids@.len() implies #[trigger] assigned@[ids@[a]]
                < #[trigger] assigned@[ids@[b]] by {
                assert(assigned@[ids@[a]] == f[a]);
                assert(assigned@[ids@[b]] == f[b]);
            }
        }
    }
    Ok(assigned)
}

} // verus!
