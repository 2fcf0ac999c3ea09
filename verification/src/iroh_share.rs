//! Board sharing between devices: invitations, the owner's answers to
//! requests, and what a receiving device does with an answer.
use vstd::prelude::*;
use vstd::string::StringExecFns;
use crate::models::{Board, BoardRole, IrohDeviceStatus, IrohPermission, StoredData, SyncStatus, is_empty_board};
use crate::text::{starts_with, str_starts_with, str_strip_prefix, trim, trim_str};
use crate::equality::{lemma_same_board_is_equal_contents, same_board, same_board_contents, stored_contents_equal};
use crate::models::Settings;

verus! {

/// The largest request or answer, in bytes: 16 MiB.
pub const MAX_MESSAGE: usize = 16777216;

/// An invitation as its link carries it.
pub struct Ticket {
    pub version: u8,
    pub node_id: String,
    pub relay_urls: Vec<String>,
    pub invite_id: String,
    pub secret: String,
    pub permission: IrohPermission,
}

/// What a receiving device keeps of an invitation to reach the owner again.
pub struct RemoteInvitation {
    pub node_id: String,
    pub relay_urls: Vec<String>,
    pub invite_id: String,
    pub secret: String,
}

/// What a request asks the owner for.
#[derive(Clone, Copy, Debug, PartialEq, Eq, Structural)]
pub enum IrohAction {
    Pull,
    Request,
    LoroSync,
}

/// A request from a receiving device to the owner.
pub struct Request {
    pub invite_id: String,
    pub secret: String,
    pub action: IrohAction,
    pub loro_state_vector: Vec<u8>,
    pub loro_update: Vec<u8>,
    pub known_revision: Option<i64>,
    pub known_permission: Option<IrohPermission>,
}

/// Why an answer carries no board, where the receiving device should react.
#[derive(Clone, Copy, Debug, PartialEq, Eq, Structural)]
pub enum SnapshotErrorCode {
    ApprovalRequired,
}

/// The owner's answer to a request.
pub struct Snapshot {
    pub ok: bool,
    pub error: Option<String>,
    pub error_code: Option<SnapshotErrorCode>,
    pub name: String,
    pub permission: IrohPermission,
    pub revision: i64,
    pub data: StoredData,
    pub loro_update: Vec<u8>,
    pub unchanged: bool,
}

/// An invitation as the owner serves it.
#[derive(Clone, Copy, Debug, PartialEq, Eq, Structural)]
pub struct HostedInvite {
    pub permission: IrohPermission,
    pub board_id: i64,
    pub enabled: bool,
}

/// A device that used an invitation, and the owner's decision on it.
pub struct IrohDevice {
    pub node_id: String,
    pub status: IrohDeviceStatus,
}

/// An invitation as the owner's list shows it.
pub struct IrohInviteSummary {
    pub invite_id: String,
    pub board_id: i64,
    pub board_name: String,
    pub permission: IrohPermission,
    pub enabled: bool,
    pub created_at: String,
    pub devices: Vec<IrohDevice>,
}

/// An invitation link and its QR code.
pub struct IrohInviteAccess {
    pub ticket: String,
    pub qr_svg: String,
}

/// The receiving device's local edits could be lost by taking the owner's
/// board: they changed during the sync, or were not sent yet.
pub fn local_edits_at_risk(status: SyncStatus, changed_during_sync: bool) -> (r: bool)
    ensures
        r == (changed_during_sync || status == SyncStatus::Pending),
{
    changed_during_sync || status == SyncStatus::Pending
}

/// An editor with unsent edits uploads its whole document; otherwise only
/// its version vector is sent.
pub fn needs_editor_upload(role: BoardRole, status: SyncStatus) -> (r: bool)
    ensures
        r == (role == BoardRole::Editor && status == SyncStatus::Pending),
{
    role == BoardRole::Editor && status == SyncStatus::Pending
}

/// The answer says that the owner has to approve this device first, by its
/// code or, in the older form, by its message.
pub open spec fn requires_approval(code: Option<SnapshotErrorCode>, error: Option<Seq<char>>) -> bool {
    code == Some(SnapshotErrorCode::ApprovalRequired) || (error is Some && starts_with(
        error.unwrap(),
        "Waiting for owner approval"@,
    ))
}

/// Whether the answer asks for the owner's approval: see
/// [`requires_approval`].
pub fn snapshot_requires_approval(snapshot: &Snapshot) -> (r: bool)
    ensures
        r == requires_approval(
            snapshot.error_code,
            match snapshot.error {
                Some(e) => Some(e@),
                None => None,
            },
        ),
{
    if snapshot.error_code == Some(SnapshotErrorCode::ApprovalRequired) {
        return true;
    }
    match &snapshot.error {
        Some(e) => str_starts_with(e.as_str(), "Waiting for owner approval"),
        None => false,
    }
}

/// The encoded invitation in an invitation link: the text after
/// `cardbe://share/` or, in older links, `cardbe+iroh://`, once trimmed.
pub open spec fn payload_of(ticket: Seq<char>) -> Option<Seq<char>> {
    let t = trim(ticket);
    if starts_with(t, "cardbe://share/"@) {
        Some(t.subrange("cardbe://share/"@.len() as int, t.len() as int))
    } else if starts_with(t, "cardbe+iroh://"@) {
        Some(t.subrange("cardbe+iroh://"@.len() as int, t.len() as int))
    } else {
        None
    }
}

/// The encoded invitation in an invitation link: see [`payload_of`].
pub fn ticket_payload(ticket: &str) -> (r: Option<&str>)
    ensures
        r is Some <==> payload_of(ticket@) is Some,
        r matches Some(p) ==> payload_of(ticket@) == Some(p@),
{
    let t = trim_str(ticket);
    match str_strip_prefix(t, "cardbe://share/") {
        Some(rest) => Some(rest),
        None => str_strip_prefix(t, "cardbe+iroh://"),
    }
}

/// The owner can skip sending the board: the device views it, and already
/// has this revision with this permission.
pub fn viewer_is_current(request: &Request, permission: IrohPermission, revision: i64) -> (r: bool)
    ensures
        r == (permission == IrohPermission::Viewer && request.known_permission == Some(
            IrohPermission::Viewer,
        ) && request.known_revision == Some(revision)),
{
    permission == IrohPermission::Viewer && request.known_permission == Some(IrohPermission::Viewer)
        && request.known_revision == Some(revision)
}

/// Only a board that exists and that this device owns can be shared.
pub fn ensure_board_owned(board: Option<&Board>) -> (r: Result<(), String>)
    ensures
        board is None ==> (r matches Err(e) && e@ == "Board not found"@),
        board matches Some(b) ==> if b.shared_role == BoardRole::Owner {
            r is Ok
        } else {
            r matches Err(e) && e@ == "Only boards you own can be shared"@
        },
{
    match board {
        None => Err(String::from_str("Board not found")),
        Some(b) => if b.shared_role != BoardRole::Owner {
            Err(String::from_str("Only boards you own can be shared"))
        } else {
            Ok(())
        },
    }
}


/// An invitation as the owner stores it: identifier, board, secret,
/// permission and whether it is enabled.
pub type InviteRow = (String, i64, String, IrohPermission, bool);

/// The first invitation with this identifier and secret is row `k`.
pub open spec fn invite_at(rows: Seq<InviteRow>, invite_id: Seq<char>, secret: Seq<char>, k: int) -> bool {
    &&& 0 <= k < rows.len()
    &&& rows[k].0@ == invite_id && rows[k].2@ == secret
    &&& forall|q: int| 0 <= q < k ==> !(#[trigger] rows[q].0@ == invite_id && rows[q].2@ == secret)
}

/// The invitation that a request names by identifier and secret, as the
/// owner serves it.
pub fn find_hosted_invite(rows: &Vec<InviteRow>, invite_id: &String, secret: &String) -> (r: Result<
    HostedInvite,
    String,
>)
    ensures
        (forall|k: int| 0 <= k < rows@.len() ==> !(#[trigger] rows@[k].0@ == invite_id@ && rows@[k].2@ == secret@))
            ==> (r matches Err(e) && e@ == "Invitation was revoked"@),
        forall|k: int| #[trigger]
            invite_at(rows@, invite_id@, secret@, k) ==> r == Ok::<HostedInvite, String>(
                HostedInvite { permission: rows@[k].3, board_id: rows@[k].1, enabled: rows@[k].4 },
            ),
{
    let n = rows.len();
    for k in 0..n
        invariant
            n == rows@.len(),
            forall|q: int| 0 <= q < k ==> !(#[trigger] rows@[q].0@ == invite_id@ && rows@[q].2@ == secret@),
    {
        if rows[k].0 == *invite_id && rows[k].2 == *secret {
            proof {
                assert forall|j: int| #[trigger] invite_at(rows@, invite_id@, secret@, j) implies j == k by {
                    if k < j {
                        assert(rows@[k as int].0@ == invite_id@ && rows@[k as int].2@ == secret@);
                    }
                }
            }
            return Ok(HostedInvite { permission: rows[k].3, board_id: rows[k].1, enabled: rows[k].4 });
        }
    }
    Err(String::from_str("Invitation was revoked"))
}

/// The owner's decision on a request for an enabled invitation, given what
/// it recorded about the requesting device: an approved device is served; a
/// pending one is told to wait, with the code that says so.
pub fn admit_device(invite: HostedInvite, device: Option<IrohDeviceStatus>) -> (r: (
    Result<HostedInvite, String>,
    Option<SnapshotErrorCode>,
))
    ensures
        !invite.enabled ==> (r.0 matches Err(e) && e@ == "Invitation is disabled"@) && r.1 is None,
        invite.enabled ==> match device {
            Some(IrohDeviceStatus::Approved) => r.0 == Ok::<HostedInvite, String>(invite) && r.1 is None,
            Some(IrohDeviceStatus::Pending) => (r.0 matches Err(e) && e@
                == "Waiting for owner approval. Ask the owner to approve this device, then try again."@)
                && r.1 == Some(SnapshotErrorCode::ApprovalRequired),
            Some(IrohDeviceStatus::Revoked) => (r.0 matches Err(e) && e@
                == "Access was declined or revoked. You can request access again."@) && r.1 is None,
            None => (r.0 matches Err(e) && e@ == "Invitation was revoked"@) && r.1 is None,
        },
{
    if !invite.enabled {
        return (Err(String::from_str("Invitation is disabled")), None);
    }
    match device {
        Some(IrohDeviceStatus::Approved) => (Ok(invite), None),
        Some(IrohDeviceStatus::Pending) => (
            Err(
                String::from_str(
                    "Waiting for owner approval. Ask the owner to approve this device, then try again.",
                ),
            ),
            Some(SnapshotErrorCode::ApprovalRequired),
        ),
        Some(IrohDeviceStatus::Revoked) => (
            Err(String::from_str("Access was declined or revoked. You can request access again.")),
            None,
        ),
        None => (Err(String::from_str("Invitation was revoked")), None),
    }
}

/// How the owner answers an admitted request.
pub enum HostRoute {
    /// Send the board, with this error when the request cannot be honoured.
    Snapshot(Option<String>),
    /// Merge the editor's changes and send back what it lacks.
    LoroSync,
}

/// How the owner answers an admitted request: a pull or an access request
/// gets the board; an editor's sync is merged; a viewer's sync gets the
/// board with the error that the invitation is read-only.
pub fn host_route(action: IrohAction, permission: IrohPermission) -> (r: HostRoute)
    ensures
        (action == IrohAction::Pull || action == IrohAction::Request) ==> r matches HostRoute::Snapshot(None),
        action == IrohAction::LoroSync && permission == IrohPermission::Editor ==> r is LoroSync,
        action == IrohAction::LoroSync && permission == IrohPermission::Viewer ==> (r matches HostRoute::Snapshot(
            Some(e),
        ) && e@ == "This invitation is read-only"@),
{
    match action {
        IrohAction::Pull | IrohAction::Request => HostRoute::Snapshot(None),
        IrohAction::LoroSync => if permission == IrohPermission::Editor {
            HostRoute::LoroSync
        } else {
            HostRoute::Snapshot(Some(String::from_str("This invitation is read-only")))
        },
    }
}

/// An answer that carries only an error.
pub fn failure_snapshot(error: String) -> (r: Snapshot)
    ensures
        !r.ok && r.error == Some(error) && r.error_code is None && r.name@.len() == 0,
        r.permission == IrohPermission::Viewer && r.revision == 0 && r.loro_update@.len() == 0 && !r.unchanged,
        is_empty_board(r.data),
{
    Snapshot {
        ok: false,
        error: Some(error),
        error_code: None,
        name: String::new(),
        permission: IrohPermission::Viewer,
        revision: 0,
        data: StoredData::default(),
        loro_update: Vec::new(),
        unchanged: false,
    }
}

/// The answer that goes back for a request: the prepared answer, or the
/// error alone when none could be prepared, marked with the code that tells
/// the requesting device how to react. A refusal carries no board content.
pub fn host_answer(result: Result<Snapshot, String>, code: Option<SnapshotErrorCode>) -> (r: Snapshot)
    ensures
        r.error_code == code,
        result matches Err(e) ==> {
            &&& !r.ok && r.error == Some(e) && r.name@.len() == 0 && r.permission == IrohPermission::Viewer
            &&& r.revision == 0 && r.loro_update@.len() == 0 && !r.unchanged && is_empty_board(r.data)
        },
        result matches Ok(s) ==> {
            &&& r.ok == s.ok && r.error == s.error && r.name == s.name && r.permission == s.permission
            &&& r.revision == s.revision && r.data == s.data && r.loro_update == s.loro_update
            &&& r.unchanged == s.unchanged
        },
{
    let mut answer = match result {
        Ok(s) => s,
        Err(e) => failure_snapshot(e),
    };
    answer.error_code = code;
    answer
}

/// The answer that replaces one too large to send.
pub fn oversized_snapshot() -> (r: Snapshot)
    ensures
        !r.ok,
        r.error matches Some(e) && e@ == "Shared board exceeds the 16 MiB transfer limit"@,
        r.error_code is None && !r.unchanged && r.revision == 0,
{
    failure_snapshot(String::from_str("Shared board exceeds the 16 MiB transfer limit"))
}

/// The permission of an enabled invitation for this board with this
/// identifier and secret, checked again just before the board is sent.
pub fn current_permission(rows: &Vec<InviteRow>, invite_id: &String, board_id: i64, secret: &String) -> (r:
    Result<IrohPermission, String>)
    ensures
        r matches Ok(p) ==> exists|k: int|
            0 <= k < rows@.len() && #[trigger] rows@[k].0@ == invite_id@ && rows@[k].1 == board_id && rows@[k].2@
                == secret@ && rows@[k].4 && rows@[k].3 == p && forall|q: int|
                0 <= q < k ==> !(rows@[q].0@ == invite_id@ && rows@[q].1 == board_id && rows@[q].2@ == secret@
                    && rows@[q].4),
        r is Err <==> forall|k: int|
            0 <= k < rows@.len() ==> !(#[trigger] rows@[k].0@ == invite_id@ && rows@[k].1 == board_id
                && rows@[k].2@ == secret@ && rows@[k].4),
        r matches Err(e) ==> e@ == "Invitation was revoked or disabled"@,
{
    let n = rows.len();
    for k in 0..n
        invariant
            n == rows@.len(),
            forall|q: int|
                0 <= q < k ==> !(#[trigger] rows@[q].0@ == invite_id@ && rows@[q].1 == board_id && rows@[q].2@
                    == secret@ && rows@[q].4),
    {
        if rows[k].0 == *invite_id && rows[k].1 == board_id && rows[k].2 == *secret && rows[k].4 {
            return Ok(rows[k].3);
        }
    }
    Err(String::from_str("Invitation was revoked or disabled"))
}

/// What the owner sends for a request it serves.
#[derive(Clone, Copy, Debug, PartialEq, Eq, Structural)]
pub enum SnapshotPlan {
    /// The viewer already has this revision: say so, without the board.
    Unchanged,
    /// An editor's sync: acknowledge, without the board.
    Acknowledge,
    /// The whole board.
    Full,
}

/// What the owner sends: nothing new for a viewer that is current, an
/// acknowledgement for a sync, else the board; a request with an error
/// always gets the board and the error.
pub fn snapshot_plan(error: &Option<String>, request: &Request, permission: IrohPermission, revision: i64) -> (r:
    SnapshotPlan)
    ensures
        r == (if error is None && permission == IrohPermission::Viewer && request.known_permission == Some(
            IrohPermission::Viewer,
        ) && request.known_revision == Some(revision) {
            SnapshotPlan::Unchanged
        } else if request.action == IrohAction::LoroSync && error is None {
            SnapshotPlan::Acknowledge
        } else {
            SnapshotPlan::Full
        }),
{
    if error.is_none() && viewer_is_current(request, permission, revision) {
        SnapshotPlan::Unchanged
    } else if request.action == IrohAction::LoroSync && error.is_none() {
        SnapshotPlan::Acknowledge
    } else {
        SnapshotPlan::Full
    }
}

/// An answer without the board: nothing new, or an acknowledgement.
pub fn brief_snapshot(name: String, permission: IrohPermission, revision: i64, unchanged: bool) -> (r: Snapshot)
    ensures
        r.ok && r.error is None && r.error_code is None && r.name == name && r.permission == permission,
        r.revision == revision && r.loro_update@.len() == 0 && r.unchanged == unchanged,
        is_empty_board(r.data),
{
    Snapshot {
        ok: true,
        error: None,
        error_code: None,
        name,
        permission,
        revision,
        data: StoredData::default(),
        loro_update: Vec::new(),
        unchanged,
    }
}

/// An answer with the board, whose settings stay with the owner's
/// installation: it is good unless there is an error.
pub fn full_snapshot(
    error: Option<String>,
    name: String,
    permission: IrohPermission,
    revision: i64,
    data: StoredData,
    loro_update: Vec<u8>,
) -> (r: Snapshot)
    ensures
        r.ok == (error is None) && r.error == error && r.error_code is None && r.name == name,
        r.permission == permission && r.revision == revision && r.loro_update == loro_update && !r.unchanged,
        r.data == (StoredData { settings: Settings { notify_enabled: false, global_shortcuts_enabled: true }, ..data }),
{
    let mut data = data;
    data.settings = Settings::default();
    Snapshot {
        ok: error.is_none(),
        error,
        error_code: None,
        name,
        permission,
        revision,
        data,
        loro_update,
        unchanged: false,
    }
}


/// A board with a saved conflict is not synced until the conflict is
/// resolved.
pub fn sync_precheck(status: SyncStatus) -> (r: Result<(), String>)
    ensures
        status == SyncStatus::Conflict ==> (r matches Err(e) && e@
            == "Resolve the saved sync conflict before syncing again"@),
        status != SyncStatus::Conflict ==> r is Ok,
{
    if status == SyncStatus::Conflict {
        Err(String::from_str("Resolve the saved sync conflict before syncing again"))
    } else {
        Ok(())
    }
}

/// An editable board needs its Loro document to sync.
pub fn editor_document_check(role: BoardRole, loro_update: &Vec<u8>) -> (r: Result<(), String>)
    ensures
        role == BoardRole::Editor && loro_update@.len() == 0 ==> (r matches Err(e) && e@
            == "Editable board is missing its Loro document. Rejoin the invitation."@),
        !(role == BoardRole::Editor && loro_update@.len() == 0) ==> r is Ok,
{
    if role == BoardRole::Editor && loro_update.len() == 0 {
        Err(String::from_str("Editable board is missing its Loro document. Rejoin the invitation."))
    } else {
        Ok(())
    }
}

/// The request that syncs a received board: editors exchange Loro state and
/// upload their document only with unsent edits; viewers pull. Both say
/// which revision and permission they have. Only received boards sync.
pub fn sync_request(
    invite_id: String,
    secret: String,
    role: BoardRole,
    status: SyncStatus,
    revision: i64,
    loro_update: Vec<u8>,
    loro_state_vector: Vec<u8>,
) -> (r: Result<Request, String>)
    ensures
        role == BoardRole::Owner ==> (r matches Err(e) && e@ == "This is not a received shared board"@),
        role != BoardRole::Owner ==> (r matches Ok(q) && {
            let permission = if role == BoardRole::Editor {
                IrohPermission::Editor
            } else {
                IrohPermission::Viewer
            };
            &&& q.invite_id == invite_id && q.secret == secret
            &&& q.action == (if role == BoardRole::Editor {
                IrohAction::LoroSync
            } else {
                IrohAction::Pull
            })
            &&& q.loro_state_vector == loro_state_vector
            &&& (if role == BoardRole::Editor && status == SyncStatus::Pending {
                q.loro_update == loro_update
            } else {
                q.loro_update@.len() == 0
            })
            &&& q.known_revision == Some(revision)
            &&& q.known_permission == Some(permission)
        }),
{
    let permission = match role {
        BoardRole::Viewer => IrohPermission::Viewer,
        BoardRole::Editor => IrohPermission::Editor,
        BoardRole::Owner => return Err(String::from_str("This is not a received shared board")),
    };
    let pushing = role == BoardRole::Editor;
    Ok(
        Request {
            invite_id,
            secret,
            action: if pushing {
                IrohAction::LoroSync
            } else {
                IrohAction::Pull
            },
            loro_state_vector,
            loro_update: if needs_editor_upload(role, status) {
                loro_update
            } else {
                Vec::new()
            },
            known_revision: Some(revision),
            known_permission: Some(permission),
        },
    )
}

/// An answer that says nothing changed is believed only when this device
/// views the board, the owner agrees on the permission and revision, and
/// the board's sync state did not move meanwhile. The device's current role
/// is checked after this.
pub fn unchanged_answer_consistent(
    role: BoardRole,
    status: SyncStatus,
    revision: i64,
    snapshot: &Snapshot,
    state_revision: i64,
    state_status: SyncStatus,
) -> (r: bool)
    ensures
        r == (snapshot.ok && role == BoardRole::Viewer && snapshot.permission == IrohPermission::Viewer
            && snapshot.revision == revision && state_revision == revision && state_status == status),
{
    snapshot.ok && role == BoardRole::Viewer && snapshot.permission == IrohPermission::Viewer
        && snapshot.revision == revision && state_revision == revision && state_status == status
}

/// What a receiving device does with the owner's board.
pub enum SyncResolution {
    /// Merge the owner's Loro changes.
    MergeLoro,
    /// Take the owner's board.
    Apply,
    /// Keep both versions for review, and report this.
    Conflict(String),
}

/// What a receiving device does with an answer that carries the board.
/// `current` is the board now, `sent` the board when the request left, and
/// `state_revision` and `state_status` its sync state now. A successful
/// sync merges Loro changes; otherwise the owner's board is taken, unless
/// local edits would be lost: then both are kept, except where the owner's
/// board is already what this device holds.
pub fn sync_resolution(
    status: SyncStatus,
    revision: i64,
    snapshot: &Snapshot,
    used_loro_sync: bool,
    current: &StoredData,
    sent: &StoredData,
    state_revision: i64,
    state_status: SyncStatus,
) -> (r: SyncResolution)
    ensures
        ({
            let changed = !same_board(*current, *sent) || state_revision != revision || state_status != status;
            let at_risk = changed || status == SyncStatus::Pending;
            let already_applied = !snapshot.ok && !at_risk && same_board(*current, snapshot.data)
                && snapshot.data.settings == (Settings {
                    notify_enabled: false,
                    global_shortcuts_enabled: true,
                });
            if used_loro_sync && snapshot.ok {
                r is MergeLoro
            } else if !already_applied && (changed || (!snapshot.ok && at_risk)) {
                r matches SyncResolution::Conflict(m) && if changed {
                    m@ == "Local changes arrived during sync. Both versions were saved for review"@
                } else {
                    match snapshot.error {
                        Some(e) => m@ == e@,
                        None => m@ == "Sync conflict: both versions were saved for review"@,
                    }
                }
            } else {
                r is Apply
            }
        }),
        !(used_loro_sync && snapshot.ok) && !stored_contents_equal(*current, *sent) ==> (r matches SyncResolution::Conflict(
            m,
        ) && m@ == "Local changes arrived during sync. Both versions were saved for review"@),
{
    proof {
        lemma_same_board_is_equal_contents(*current, *sent);
    }
    if used_loro_sync && snapshot.ok {
        return SyncResolution::MergeLoro;
    }
    let changed = !same_board_contents(current, sent) || state_revision != revision || state_status != status;
    let at_risk = local_edits_at_risk(status, changed);
    let already_applied = !snapshot.ok && !at_risk && same_board_contents(current, &snapshot.data)
        && !snapshot.data.settings.notify_enabled && snapshot.data.settings.global_shortcuts_enabled;
    if !already_applied && (changed || (!snapshot.ok && at_risk)) {
        let message = if changed {
            String::from_str("Local changes arrived during sync. Both versions were saved for review")
        } else {
            match &snapshot.error {
                Some(e) => e.clone(),
                None => String::from_str("Sync conflict: both versions were saved for review"),
            }
        };
        return SyncResolution::Conflict(message);
    }
    SyncResolution::Apply
}

/// The error that joining reports when the owner refuses: a request for
/// approval names this device, so that the owner can recognise it.
pub fn join_refusal(snapshot: &Snapshot, device_id: &str) -> (r: String)
    ensures
        requires_approval(
            snapshot.error_code,
            match snapshot.error {
                Some(e) => Some(e@),
                None => None,
            },
        ) ==> r@ == "APPROVAL_REQUIRED:"@ + device_id@,
        !requires_approval(
            snapshot.error_code,
            match snapshot.error {
                Some(e) => Some(e@),
                None => None,
            },
        ) ==> r@ == match snapshot.error {
            Some(e) => e@,
            None => "Invitation was revoked"@,
        },
{
    if snapshot_requires_approval(snapshot) {
        let mut m = String::from_str("APPROVAL_REQUIRED:");
        m.append(device_id);
        m
    } else {
        match &snapshot.error {
            Some(e) => e.clone(),
            None => String::from_str("Invitation was revoked"),
        }
    }
}

/// The outcome of a request for access: granted, waiting for approval, or
/// refused with the owner's error.
pub fn access_outcome(snapshot: &Snapshot) -> (r: Result<bool, String>)
    ensures
        snapshot.ok ==> r == Ok::<bool, String>(true),
        !snapshot.ok && requires_approval(
            snapshot.error_code,
            match snapshot.error {
                Some(e) => Some(e@),
                None => None,
            },
        ) ==> r == Ok::<bool, String>(false),
        !snapshot.ok && !requires_approval(
            snapshot.error_code,
            match snapshot.error {
                Some(e) => Some(e@),
                None => None,
            },
        ) ==> (r matches Err(e) && e@ == match snapshot.error {
            Some(x) => x@,
            None => "Access request failed"@,
        }),
{
    if snapshot.ok {
        return Ok(true);
    }
    if snapshot_requires_approval(snapshot) {
        return Ok(false);
    }
    match &snapshot.error {
        Some(e) => Err(e.clone()),
        None => Err(String::from_str("Access request failed")),
    }
}

/// An invitation this library can use: the first version, with an
/// identifier and a secret.
pub fn validate_ticket(ticket: &Ticket) -> (r: Result<(), String>)
    ensures
        r is Ok <==> (ticket.version == 1 && ticket.invite_id@.len() > 0 && ticket.secret@.len() > 0),
        r matches Err(e) ==> e@ == "Unsupported shared-board invitation"@,
{
    if ticket.version != 1 || ticket.invite_id.as_str().unicode_len() == 0 || ticket.secret.as_str().unicode_len()
        == 0 {
        return Err(String::from_str("Unsupported shared-board invitation"));
    }
    Ok(())
}

/// Whether this device already joined the invitation: some saved invitation
/// names the same owner and invitation.
pub fn invite_already_joined(saved: &Vec<RemoteInvitation>, ticket: &Ticket) -> (r: bool)
    ensures
        r == exists|k: int|
            0 <= k < saved@.len() && #[trigger] saved@[k].node_id@ == ticket.node_id@ && saved@[k].invite_id@
                == ticket.invite_id@,
{
    let n = saved.len();
    for k in 0..n
        invariant
            n == saved@.len(),
            forall|q: int|
                0 <= q < k ==> !(#[trigger] saved@[q].node_id@ == ticket.node_id@ && saved@[q].invite_id@
                    == ticket.invite_id@),
    {
        if saved[k].node_id == ticket.node_id && saved[k].invite_id == ticket.invite_id {
            return true;
        }
    }
    false
}

/// What a device keeps of an invitation that it joins.
pub fn remote_invitation(ticket: &Ticket) -> (r: RemoteInvitation)
    ensures
        r.node_id == ticket.node_id && r.invite_id == ticket.invite_id && r.secret == ticket.secret,
        r.relay_urls@.len() == ticket.relay_urls@.len(),
        forall|k: int| 0 <= k < r.relay_urls@.len() ==> #[trigger] r.relay_urls@[k] == ticket.relay_urls@[k],
{
    RemoteInvitation {
        node_id: ticket.node_id.clone(),
        relay_urls: ticket.relay_urls.clone(),
        invite_id: ticket.invite_id.clone(),
        secret: ticket.secret.clone(),
    }
}

} // verus!
