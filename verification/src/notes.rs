//! Quick notes and note edits.
use vstd::prelude::*;
use vstd::string::StringExecFns;
use crate::board::message_with_id;
use crate::models::Note;
use crate::text::{int_decimal, trim, trim_str};

verus! {

/// The title and content of a quick note, trimmed; a note needs one of the
/// two.
pub fn quick_note_fields(title: &str, content: &str) -> (r: Result<(String, String), String>)
    ensures
        trim(title@).len() == 0 && trim(content@).len() == 0 ==> (r matches Err(e) && e@
            == "A note needs a title or some content"@),
        trim(title@).len() > 0 || trim(content@).len() > 0 ==> (r matches Ok((t, c)) && t@ == trim(title@)
            && c@ == trim(content@)),
{
    let title = trim_str(title);
    let content = trim_str(content);
    if title.unicode_len() == 0 && content.unicode_len() == 0 {
        return Err(String::from_str("A note needs a title or some content"));
    }
    Ok((String::from_str(title), String::from_str(content)))
}

/// The note with identifier `id` after an edit at `now`: the new title,
/// content and pin, and the creation time of the stored note of that
/// identifier, the first in `notes`.
pub fn edited_note(id: i64, title: String, content: String, pinned: bool, now: i64, notes: &Vec<Note>) -> (r:
    Result<Note, String>)
    ensures
        (forall|k: int| 0 <= k < notes@.len() ==> #[trigger] notes@[k].id != id) ==> (r matches Err(e)
            && e@ == "Note not found: "@ + int_decimal(id as int)),
        forall|k: int|
            0 <= k < notes@.len() && #[trigger] notes@[k].id == id && (forall|q: int|
                0 <= q < k ==> notes@[q].id != id) ==> r == Ok::<Note, String>(
                Note {
                    id: id,
                    title: title,
                    content: content,
                    pinned: pinned,
                    created_at: notes@[k].created_at,
                    updated_at: now,
                },
            ),
{
    let n = notes.len();
    let mut k: usize = 0;
    while k < n && notes[k].id != id
        invariant
            n == notes@.len(),
            k <= n,
            forall|q: int| 0 <= q < k ==> notes@[q].id != id,
        decreases n - k,
    {
        k = k + 1;
    }
    if k == n {
        return Err(message_with_id("Note not found: ", id));
    }
    proof {
        assert forall|j: int|
            0 <= j < notes@.len() && #[trigger] notes@[j].id == id && (forall|q: int|
                0 <= q < j ==> notes@[q].id != id) implies j == k by {
            if j < k {
            } else if k < j {
                assert(notes@[k as int].id == id);
            }
        }
    }
    Ok(Note { id, title, content, pinned, created_at: notes[k].created_at, updated_at: now })
}

} // verus!
