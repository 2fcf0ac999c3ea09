//! The list of boards: names and the choice of a board after a deletion.
use vstd::prelude::*;
use vstd::string::StringExecFns;
use crate::models::Board;
use crate::text::{trim, trim_str};

verus! {

/// The boards and the one that is open.
pub struct BoardsState {
    pub boards: Vec<Board>,
    pub active_board_id: i64,
}

/// A board name, trimmed; it may not be blank.
pub fn board_name(value: String) -> (r: Result<String, String>)
    ensures
        trim(value@).len() == 0 ==> (r matches Err(e) && e@ == "Board name cannot be empty"@),
        trim(value@).len() > 0 ==> (r matches Ok(name) && name@ == trim(value@)),
{
    let trimmed = trim_str(value.as_str());
    if trimmed.unicode_len() == 0 {
        Err(String::from_str("Board name cannot be empty"))
    } else {
        Ok(String::from_str(trimmed))
    }
}

/// The board to open when the board with identifier `removed_id` is
/// deleted: the next one in the list, or the previous one when it is the
/// last. The last remaining board cannot be deleted.
pub fn next_board_after_delete(boards: &[Board], removed_id: i64) -> (r: Result<i64, String>)
    ensures
        boards@.len() <= 1 ==> (r matches Err(e) && e@ == "At least one board is required"@),
        boards@.len() > 1 && (forall|k: int| 0 <= k < boards@.len() ==> #[trigger] boards@[k].id != removed_id)
            ==> (r matches Err(e) && e@ == "Board not found"@),
        boards@.len() > 1 ==> forall|k: int|
            0 <= k < boards@.len() && #[trigger] boards@[k].id == removed_id && (forall|q: int|
                0 <= q < k ==> boards@[q].id != removed_id) ==> r == Ok::<i64, String>(
                if k + 1 < boards@.len() {
                    boards@[k + 1].id
                } else {
                    boards@[k - 1].id
                },
            ),
{
    let n = boards.len();
    if n <= 1 {
        return Err(String::from_str("At least one board is required"));
    }
    let mut k: usize = 0;
    while k < n && boards[k].id != removed_id
        invariant
            n == boards@.len(),
            k <= n,
            forall|q: int| 0 <= q < k ==> boards@[q].id != removed_id,
        decreases n - k,
    {
        k = k + 1;
    }
    if k == n {
        return Err(String::from_str("Board not found"));
    }
    proof {
        assert forall|j: int|
            0 <= j < boards@.len() && #[trigger] boards@[j].id == removed_id && (forall|q: int|
                0 <= q < j ==> boards@[q].id != removed_id) implies j == k by {
            if j < k {
            } else if k < j {
                assert(boards@[k as int].id == removed_id);
            }
        }
    }
    if k + 1 < n {
        Ok(boards[k + 1].id)
    } else {
        Ok(boards[k - 1].id)
    }
}

} // verus!
