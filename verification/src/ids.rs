//! Repair of identifier sequences: every identifier that is negative or
//! repeats an earlier one gets a fresh identifier above all valid ones.
use vstd::prelude::*;

verus! {

/// The identifier at `i` is valid and its first occurrence, so it is kept.
pub open spec fn kept(ids: Seq<i64>, i: int) -> bool {
    ids[i] >= 0 && !ids.take(i).contains(ids[i])
}

/// How many of the first `i` identifiers are replaced.
pub open spec fn repaired_before(ids: Seq<i64>, i: int) -> nat
    decreases i,
{
    if i <= 0 {
        0
    } else {
        repaired_before(ids, i - 1) + if kept(ids, i - 1) { 0nat } else { 1nat }
    }
}

/// How many identifiers are replaced.
pub open spec fn repair_count(ids: Seq<i64>) -> nat {
    repaired_before(ids, ids.len() as int)
}

/// The largest valid identifier, if there is one.
pub open spec fn max_valid(ids: Seq<i64>) -> Option<i64>
    decreases ids.len(),
{
    if ids.len() == 0 {
        None
    } else {
        let last = ids.last();
        match max_valid(ids.drop_last()) {
            None => if last >= 0 { Some(last) } else { None },
            Some(m) => if last > m { Some(last) } else { Some(m) },
        }
    }
}

/// The first fresh identifier: one above the largest valid identifier
/// (saturating), but never below the stored counter, nor below zero.
pub open spec fn id_start(ids: Seq<i64>, next: i64) -> int {
    let from_ids: int = match max_valid(ids) {
        None => 0,
        Some(m) => if m == i64::MAX { m as int } else { m + 1 },
    };
    let from_next: int = if next < 0 { 0 } else { next as int };
    if from_ids >= from_next { from_ids } else { from_next }
}

/// The identifier at `i` after repair.
pub open spec fn repaired_id(ids: Seq<i64>, i: int, next: i64) -> int {
    if kept(ids, i) {
        ids[i] as int
    } else {
        id_start(ids, next) + repaired_before(ids, i)
    }
}

/// All identifiers after repair.
pub open spec fn repaired_ids(ids: Seq<i64>, next: i64) -> Seq<i64> {
    Seq::new(ids.len(), |i: int| repaired_id(ids, i, next) as i64)
}

/// The counter after repair: one above the last fresh identifier, saturating.
pub open spec fn next_after_repair(ids: Seq<i64>, next: i64) -> i64 {
    let n = id_start(ids, next) + repair_count(ids);
    if n > i64::MAX { i64::MAX } else { n as i64 }
}

/// Fresh identifiers can be handed out without running past `i64::MAX`.
/// Where this fails, repeated saturation would hand out one identifier
/// twice, and the repair loop would never end.
pub open spec fn repairable(ids: Seq<i64>, next: i64) -> bool {
    repair_count(ids) == 0 || (
        (max_valid(ids) matches Some(m) ==> m < i64::MAX)
        && id_start(ids, next) + repair_count(ids) <= i64::MAX + 1
    )
}

proof fn lemma_repaired_before_monotone(ids: Seq<i64>, i: int, j: int)
    requires
        0 <= i <= j,
    ensures
        repaired_before(ids, i) <= repaired_before(ids, j),
        i < j && !kept(ids, i) ==> repaired_before(ids, i) < repaired_before(ids, j),
    decreases j - i,
{
    if i < j {
        lemma_repaired_before_monotone(ids, i, j - 1);
        if !kept(ids, i) && i == j - 1 {
        }
    }
}

proof fn lemma_repaired_before_bound(ids: Seq<i64>, i: int)
    requires
        0 <= i,
    ensures
        repaired_before(ids, i) <= i,
    decreases i,
{
    if i > 0 {
        lemma_repaired_before_bound(ids, i - 1);
    }
}

proof fn lemma_max_valid_bounds(ids: Seq<i64>, i: int)
    requires
        0 <= i < ids.len(),
        ids[i] >= 0,
    ensures
        max_valid(ids) matches Some(m) && ids[i] <= m,
    decreases ids.len(),
{
    if i < ids.len() - 1 {
        lemma_max_valid_bounds(ids.drop_last(), i);
    }
}

proof fn lemma_max_valid_is_valid(ids: Seq<i64>)
    ensures
        max_valid(ids) matches Some(m) ==> m >= 0,
    decreases ids.len(),
{
    if ids.len() > 0 {
        lemma_max_valid_is_valid(ids.drop_last());
    }
}

/// After repair every identifier is non-negative and occurs once, valid
/// first occurrences keep their identifier, and the counter lies above every
/// identifier unless it saturated at `i64::MAX`.
proof fn lemma_repair_yields_unique_ids(ids: Seq<i64>, next: i64)
    requires
        repairable(ids, next),
    ensures
        forall|i: int| 0 <= i < ids.len() ==> #[trigger] repaired_id(ids, i, next) >= 0,
        forall|i: int, j: int|
            0 <= i < j < ids.len() ==> #[trigger] repaired_id(ids, i, next) != #[trigger] repaired_id(
                ids,
                j,
                next,
            ),
        forall|i: int| 0 <= i < ids.len() && kept(ids, i) ==> #[trigger] repaired_id(ids, i, next) == ids[i],
        forall|i: int| 0 <= i < ids.len() ==> #[trigger] repaired_id(ids, i, next) <= i64::MAX,
        id_start(ids, next) + repair_count(ids) <= i64::MAX && (max_valid(ids) matches Some(m)
            ==> m < i64::MAX) ==> forall|i: int|
            0 <= i < ids.len() ==> #[trigger] repaired_id(ids, i, next) < next_after_repair(ids, next),
{
    let start = id_start(ids, next);
    let n = ids.len() as int;
    assert forall|i: int| 0 <= i < n implies #[trigger] repaired_id(ids, i, next) >= 0 by {
    }
    assert forall|i: int| 0 <= i < n && !kept(ids, i) implies repaired_before(ids, i) < repair_count(ids) by {
        lemma_repaired_before_monotone(ids, i, n);
    }
    assert forall|i: int| 0 <= i < n && kept(ids, i) implies ids[i] < start || repair_count(ids) == 0 by {
        lemma_max_valid_bounds(ids, i);
    }
    assert forall|i: int, j: int|
        0 <= i < j < n implies #[trigger] repaired_id(ids, i, next) != #[trigger] repaired_id(ids, j, next) by {
        if kept(ids, i) && kept(ids, j) {
            assert(ids.take(j)[i] == ids[i]);
        } else if !kept(ids, i) && !kept(ids, j) {
            lemma_repaired_before_monotone(ids, i, j);
        } else if kept(ids, i) {
            lemma_max_valid_bounds(ids, i);
        } else {
            lemma_max_valid_bounds(ids, j);
        }
    }
    assert forall|i: int| 0 <= i < n implies #[trigger] repaired_id(ids, i, next) <= i64::MAX by {
    }
    if start + repair_count(ids) <= i64::MAX && (max_valid(ids) matches Some(m) ==> m < i64::MAX) {
        assert forall|i: int| 0 <= i < n implies #[trigger] repaired_id(ids, i, next) < next_after_repair(
            ids,
            next,
        ) by {
            if kept(ids, i) {
                lemma_max_valid_bounds(ids, i);
            } else {
                lemma_repaired_before_monotone(ids, i, n);
            }
        }
    }
}

proof fn lemma_max_valid_is_an_entry(ids: Seq<i64>)
    ensures
        max_valid(ids) matches Some(m) ==> exists|k: int| 0 <= k < ids.len() && ids[k] == m,
    decreases ids.len(),
{
    if ids.len() > 0 {
        lemma_max_valid_is_an_entry(ids.drop_last());
        if let Some(m) = max_valid(ids) {
            if m != ids.last() {
                let k = choose|k: int| 0 <= k < ids.drop_last().len() && ids.drop_last()[k] == m;
                assert(ids[k] == m);
            }
        }
    }
}

proof fn lemma_all_kept_none_repaired(ids: Seq<i64>, i: int)
    requires
        0 <= i <= ids.len(),
        forall|k: int| 0 <= k < ids.len() ==> #[trigger] kept(ids, k),
    ensures
        repaired_before(ids, i) == 0,
    decreases i,
{
    if i > 0 {
        lemma_all_kept_none_repaired(ids, i - 1);
        assert(kept(ids, i - 1));
    }
}

/// Repairing identifiers that were just repaired, from the counter that the
/// repair left, replaces none of them and leaves the counter as it is.
pub proof fn lemma_repair_is_idempotent(ids: Seq<i64>, next: i64)
    requires
        repairable(ids, next),
    ensures
        repair_count(repaired_ids(ids, next)) == 0,
        repairable(repaired_ids(ids, next), next_after_repair(ids, next)),
        repaired_ids(repaired_ids(ids, next), next_after_repair(ids, next)) == repaired_ids(ids, next),
        next_after_repair(repaired_ids(ids, next), next_after_repair(ids, next)) == next_after_repair(
            ids,
            next,
        ),
{
    let r = repaired_ids(ids, next);
    let n2 = next_after_repair(ids, next);
    lemma_repair_yields_unique_ids(ids, next);
    assert forall|i: int| 0 <= i < r.len() implies #[trigger] kept(r, i) by {
        assert(r[i] == repaired_id(ids, i, next));
        if r.take(i).contains(r[i]) {
            let k = choose|k: int| 0 <= k < r.take(i).len() && r.take(i)[k] == r[i];
            assert(r[k] == repaired_id(ids, k, next));
            assert(repaired_id(ids, k, next) != repaired_id(ids, i, next));
        }
    }
    lemma_all_kept_none_repaired(r, r.len() as int);
    assert(repaired_ids(r, n2) =~= r);
    lemma_max_valid_is_an_entry(r);
    lemma_max_valid_is_an_entry(ids);
    if n2 < i64::MAX {
        if let Some(m) = max_valid(r) {
            let k = choose|k: int| 0 <= k < r.len() && r[k] == m;
            assert(r[k] == repaired_id(ids, k, next));
            if let Some(m0) = max_valid(ids) {
                let k0 = choose|k: int| 0 <= k < ids.len() && ids[k] == m0;
                assert(ids[k0] == m0);
            }
            assert(repaired_id(ids, k, next) < n2);
        }
    }
}

/// The law of every identifier repair (of columns, tasks and templates):
/// afterwards the identifiers are non-negative and pairwise distinct, a valid
/// first occurrence keeps its identifier, a replaced one gets an identifier
/// that no valid one had, the counter never goes down nor stays below zero,
/// and unless fresh identifiers reach `i64::MAX` it lies above every
/// identifier.
pub proof fn lemma_repair_law(ids: Seq<i64>, next: i64)
    requires
        repairable(ids, next),
    ensures
        repaired_ids(ids, next).len() == ids.len(),
        forall|i: int| 0 <= i < ids.len() ==> 0 <= #[trigger] repaired_ids(ids, next)[i],
        repaired_ids(ids, next).no_duplicates(),
        forall|i: int| 0 <= i < ids.len() && kept(ids, i) ==> #[trigger] repaired_ids(ids, next)[i] == ids[i],
        forall|i: int, j: int|
            0 <= i < ids.len() && 0 <= j < ids.len() && !kept(ids, i) && ids[j] >= 0 ==> #[trigger] repaired_ids(
                ids,
                next,
            )[i] != #[trigger] ids[j],
        next_after_repair(ids, next) >= next,
        next_after_repair(ids, next) >= 0,
        id_start(ids, next) + repair_count(ids) <= i64::MAX && (max_valid(ids) matches Some(m) ==> m < i64::MAX)
            ==> forall|i: int| 0 <= i < ids.len() ==> #[trigger] repaired_ids(ids, next)[i] < next_after_repair(ids, next),
{
    let r = repaired_ids(ids, next);
    lemma_repair_yields_unique_ids(ids, next);
    assert forall|i: int| 0 <= i < ids.len() implies #[trigger] r[i] == repaired_id(ids, i, next) by {
    }
    assert forall|i: int, j: int| 0 <= i < r.len() && 0 <= j < r.len() && i != j implies r[i] != r[j] by {
        if i < j {
            assert(repaired_id(ids, i, next) != repaired_id(ids, j, next));
        } else {
            assert(repaired_id(ids, j, next) != repaired_id(ids, i, next));
        }
    }
    assert forall|i: int, j: int|
        0 <= i < ids.len() && 0 <= j < ids.len() && !kept(ids, i) && ids[j] >= 0 implies #[trigger] r[i]
            != #[trigger] ids[j] by {
        lemma_max_valid_bounds(ids, j);
        lemma_repaired_before_monotone(ids, i, ids.len() as int);
    }
}

/// Whether `v[..end]` holds `x`.
fn prefix_contains(v: &Vec<i64>, end: usize, x: i64) -> (r: bool)
    requires
        end <= v.len(),
    ensures
        r == v@.take(end as int).contains(x),
{
    let mut k: usize = 0;
    while k < end
        invariant
            end <= v.len(),
            k <= end,
            forall|m: int| 0 <= m < k ==> v@[m] != x,
        decreases end - k,
    {
        if v[k] == x {
            assert(v@.take(end as int)[k as int] == x);
            return true;
        }
        k = k + 1;
    }
    false
}

/// Replaces every negative or repeated identifier of `ids` by a fresh one
/// and returns the new counter and whether anything changed.
pub fn repair_ids(ids: &mut Vec<i64>, next: i64) -> (r: (i64, bool))
    requires
        repairable(old(ids)@, next),
    ensures
        final(ids)@ == repaired_ids(old(ids)@, next),
        r.0 == next_after_repair(old(ids)@, next),
        r.1 == (repair_count(old(ids)@) > 0 || next != r.0),
{
    let n = ids.len();
    let ghost orig = ids@;
    let mut original: Vec<i64> = Vec::new();
    let mut best: Option<i64> = None;
    for i in 0..n
        invariant
            n == ids.len(),
            ids@ == orig,
            original@ == orig.take(i as int),
            best == max_valid(orig.take(i as int)),
    {
        let x = ids[i];
        original.push(x);
        assert(orig.take(i + 1).drop_last() =~= orig.take(i as int));
        best = match best {
            None => if x >= 0 { Some(x) } else { None },
            Some(m) => if x > m { Some(x) } else { Some(m) },
        };
    }
    assert(orig.take(n as int) =~= orig);
    let from_ids: i64 = match best {
        None => 0,
        Some(m) => if m == i64::MAX { m } else { m + 1 },
    };
    let from_next: i64 = if next < 0 { 0 } else { next };
    let start: i64 = if from_ids >= from_next { from_ids } else { from_next };
    assert(start == id_start(orig, next));
    let mut fresh: i64 = start;
    let mut count: usize = 0;
    for i in 0..n
        invariant
            n == ids.len(),
            n == orig.len(),
            original@ == orig,
            repairable(orig, next),
            start == id_start(orig, next),
            count == repaired_before(orig, i as int),
            fresh == (if start + count > i64::MAX { i64::MAX as int } else { start + count }),
            forall|k: int| 0 <= k < i ==> ids@[k] == repaired_id(orig, k, next),
            forall|k: int| i <= k < n ==> ids@[k] == orig[k],
    {
        let x = original[i];
        if x >= 0 && !prefix_contains(&original, i, x) {
            assert(kept(orig, i as int));
        } else {
            assert(!kept(orig, i as int));
            proof {
                lemma_repaired_before_bound(orig, i as int);
                lemma_repaired_before_monotone(orig, i as int + 1, n as int);
            }
            ids[i] = fresh;
            fresh = if fresh == i64::MAX { fresh } else { fresh + 1 };
            count = count + 1;
        }
    }
    assert(ids@ =~= repaired_ids(orig, next));
    (fresh, count > 0 || next != fresh)
}


/// Whether fresh identifiers for `ids` can be handed out from `next`
/// without running past `i64::MAX`: see [`repairable`].
pub fn ids_repairable(ids: &Vec<i64>, next: i64) -> (r: bool)
    ensures
        r == repairable(ids@, next),
{
    let n = ids.len();
    let mut best: Option<i64> = None;
    let mut count: usize = 0;
    for i in 0..n
        invariant
            n == ids@.len(),
            best == max_valid(ids@.take(i as int)),
            count == repaired_before(ids@, i as int),
            count <= i,
    {
        let x = ids[i];
        proof {
            assert(ids@.take(i + 1).drop_last() =~= ids@.take(i as int));
            assert(ids@.take(i + 1).last() == x);
        }
        best = match best {
            None => if x >= 0 { Some(x) } else { None },
            Some(m) => if x > m { Some(x) } else { Some(m) },
        };
        if !(x >= 0 && !prefix_contains(ids, i, x)) {
            count = count + 1;
        }
    }
    proof {
        assert(ids@.take(n as int) =~= ids@);
    }
    if count == 0 {
        return true;
    }
    let from_ids: i128 = match best {
        None => 0,
        Some(m) => {
            if m == i64::MAX {
                return false;
            }
            m as i128 + 1
        },
    };
    let from_next: i128 = if next < 0 { 0 } else { next as i128 };
    let start: i128 = if from_ids >= from_next { from_ids } else { from_next };
    start + (count as i128) <= 9223372036854775808i128
}
} // verus!
