//! The undo history of the board being edited, and the checks that keep a
//! delayed request from reaching another board.
use vstd::prelude::*;
use vstd::string::StringExecFns;
use crate::models::StoredData;
use crate::text::{int_decimal, push_i64_decimal};

verus! {

/// How many earlier states of the board the undo history keeps.
pub const UNDO_LIMIT: usize = 50;

/// The undo history after a change from `previous`: `previous` is added
/// last, and the oldest state goes when more than `UNDO_LIMIT` are kept.
pub open spec fn recorded(history: Seq<StoredData>, previous: StoredData) -> Seq<StoredData> {
    if history.len() + 1 > UNDO_LIMIT {
        history.push(previous).drop_first()
    } else {
        history.push(previous)
    }
}

/// Records the state `previous` that a change replaced; the history never
/// grows beyond `UNDO_LIMIT` states.
pub fn record_undo(history: &mut Vec<StoredData>, previous: StoredData)
    ensures
        final(history)@ == recorded(old(history)@, previous),
        old(history)@.len() <= UNDO_LIMIT ==> final(history)@.len() <= UNDO_LIMIT,
{
    history.push(previous);
    if history.len() > UNDO_LIMIT {
        history.remove(0);
    }
}

/// The refusal of a change meant for board `expected` while board `active`
/// is open.
pub fn stale_change_message(expected: i64, active: i64) -> (r: String)
    ensures
        r@ == "Stale board request: expected board "@ + int_decimal(expected as int) + ", active board is "@
            + int_decimal(active as int),
{
    let mut r = String::from_str("Stale board request: expected board ");
    push_i64_decimal(&mut r, expected);
    r.append(", active board is ");
    push_i64_decimal(&mut r, active);
    r
}

/// A request meant for board `expected` may go on only while that board is
/// open.
pub fn check_board_current(active: i64, expected: i64) -> (r: Result<(), String>)
    ensures
        r is Ok <==> active == expected,
        r matches Err(e) ==> e@ == "Stale board request"@,
{
    if active != expected {
        Err(String::from_str("Stale board request"))
    } else {
        Ok(())
    }
}

/// An undo for board `expected` may go on: that board is open and its
/// history holds an earlier state.
pub fn check_undo(active: i64, expected: i64, history: &Vec<StoredData>) -> (r: Result<(), String>)
    ensures
        r is Ok <==> active == expected && history@.len() > 0,
        active != expected ==> (r matches Err(e) && e@ == "Stale board request"@),
        active == expected && history@.len() == 0 ==> (r matches Err(e) && e@ == "There is nothing to undo"@),
{
    check_board_current(active, expected)?;
    if history.len() == 0 {
        return Err(String::from_str("There is nothing to undo"));
    }
    Ok(())
}

/// Drops the state an undo went back to; tells whether earlier states
/// remain.
pub fn finish_undo(history: &mut Vec<StoredData>) -> (r: bool)
    requires
        old(history)@.len() > 0,
    ensures
        final(history)@ == old(history)@.drop_last(),
        r == (final(history)@.len() > 0),
{
    history.pop();
    history.len() > 0
}

} // verus!
