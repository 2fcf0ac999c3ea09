//! Invitation links and the owner's list of invitations: the text forms of
//! tickets, keys and tokens, and the summaries shown to the owner.
use vstd::prelude::*;
use vstd::string::{StrSliceExecFns, StringExecFns, StringSliceAdditionalSpecFns};
use qrcode::render::svg;
use qrcode::QrCode;
use crate::encoding::{
    base64_url, base64_url_decoded, decode_base64_url, encodable, encode_base64_url, sha256_digest, sha256_of,
    url_safe_char,
};
use crate::text::{trim, trim_end, trim_start};
use crate::iroh_share::{payload_of, ticket_payload, IrohDevice, IrohInviteSummary};
use crate::models::{Board, IrohDeviceStatus, IrohPermission};

verus! {

/// The SVG image of the QR code of `data`, at least `size` pixels wide and
/// high, as `QrCode::new` and `render::<svg::Color>()` with
/// `min_dimensions(size, size)` make it; or, where `data` does not fit in a
/// QR code, the `Display` text of the `QrError`.
pub uninterp spec fn qr_svg_of(data: Seq<u8>, size: u32) -> Result<Seq<char>, Seq<char>>;

/// `QrCode::new` and its SVG rendering: named [`qr_svg_of`]. The size is
/// bounded because `min_dimensions` adds the module width to it, which
/// overflows near `u32::MAX`.
#[verifier::external_body]
fn qr_svg(data: &[u8], size: u32) -> (r: Result<String, String>)
    requires
        size <= 65535,
    ensures
        match r {
            Ok(svg) => qr_svg_of(data@, size) == Ok::<Seq<char>, Seq<char>>(svg@),
            Err(e) => qr_svg_of(data@, size) == Err::<Seq<char>, Seq<char>>(e@),
        },
{
    match QrCode::new(data) {
        Ok(code) => Ok(code.render::<svg::Color>().min_dimensions(size, size).build()),
        Err(error) => Err(error.to_string()),
    }
}

/// The text an invitation link starts with.
pub open spec fn link_prefix() -> Seq<char> {
    "cardbe://share/"@
}

/// Reading `link` as an invitation link gives the invitation text `json`.
pub open spec fn reads_back(link: Seq<char>, json: Seq<u8>) -> bool {
    payload_of(link) matches Some(p) && base64_url_decoded(p) == Some(json)
}

/// The link that carries an invitation whose JSON text is `ticket_json`;
/// reading the link gives that text back.
pub fn invitation_link(ticket_json: &[u8]) -> (r: String)
    requires
        encodable(ticket_json@.len()),
    ensures
        r@ == link_prefix() + base64_url(ticket_json@),
        reads_back(r@, ticket_json@),
{
    let mut r = String::from_str("cardbe://share/");
    let encoded = encode_base64_url(ticket_json);
    r.append(encoded.as_str());
    proof {
        lemma_link_payload(encoded@);
    }
    r
}

proof fn lemma_link_payload(b: Seq<char>)
    requires
        forall|i: int| 0 <= i < b.len() ==> url_safe_char(#[trigger] b[i]),
    ensures
        payload_of(link_prefix() + b) == Some(b),
{
    reveal_strlit("cardbe://share/");
    let s = link_prefix() + b;
    assert(s[0] == 'c');
    assert(trim_start(s) == s);
    if b.len() > 0 {
        assert(s.last() == b.last());
        assert(url_safe_char(b[b.len() - 1]));
    } else {
        assert(s.last() == '/');
    }
    assert(trim_end(s) == s);
    assert(trim(s) == s);
    assert(s.subrange(0, link_prefix().len() as int) =~= link_prefix());
    assert(s.subrange(link_prefix().len() as int, s.len() as int) =~= b);
}

/// The JSON text of the invitation that a link carries: refused where the
/// text is no invitation link, or its payload is not URL-safe base64.
pub fn ticket_bytes(ticket: &str) -> (r: Result<Vec<u8>, String>)
    ensures
        match payload_of(ticket@) {
            None => r matches Err(e) && e@ == "Not a shared-board invitation"@,
            Some(p) => match base64_url_decoded(p) {
                None => r matches Err(e) && e@ == "Invalid invitation"@,
                Some(bytes) => r matches Ok(v) && v@ == bytes,
            },
        },
{
    let encoded = match ticket_payload(ticket) {
        Some(p) => p,
        None => return Err(String::from_str("Not a shared-board invitation")),
    };
    match decode_base64_url(encoded) {
        Some(bytes) => Ok(bytes),
        None => Err(String::from_str("Invalid invitation")),
    }
}

/// The 32-byte key that an invitation's node identifier spells in URL-safe
/// base64: refused where it spells none, or another length.
pub fn node_key_bytes(node_id: &str) -> (r: Result<Vec<u8>, String>)
    ensures
        match base64_url_decoded(node_id@) {
            Some(bytes) => if bytes.len() == 32 {
                r matches Ok(v) && v@ == bytes
            } else {
                r matches Err(e) && e@ == "Invalid invitation node ID"@
            },
            None => r matches Err(e) && e@ == "Invalid invitation node ID"@,
        },
{
    match decode_base64_url(node_id) {
        Some(bytes) => if bytes.len() == 32 {
            Ok(bytes)
        } else {
            Err(String::from_str("Invalid invitation node ID"))
        },
        None => Err(String::from_str("Invalid invitation node ID")),
    }
}

/// The text form of a random token or a node identifier: its bytes in
/// URL-safe base64 without padding.
pub fn token_text(bytes: &[u8]) -> (r: String)
    requires
        encodable(bytes@.len()),
    ensures
        r@ == base64_url(bytes@),
{
    encode_base64_url(bytes)
}

/// The secret key bytes of this installation's sharing endpoint: the
/// SHA-256 digest of its stored seed.
pub fn device_key_bytes(seed: &str) -> (r: Vec<u8>)
    ensures
        r@ == sha256_of(seed.spec_bytes()),
        r@.len() == 32,
{
    sha256_digest(seed.as_bytes())
}

/// The QR code of an invitation link, as an SVG image at least 240 pixels
/// wide and high: see [`qr_svg_of`].
pub fn iroh_invite_qr_svg(ticket: String) -> (r: Result<String, String>)
    ensures
        match r {
            Ok(svg) => qr_svg_of(vstd::utf8::encode_utf8(ticket@), 240) == Ok::<Seq<char>, Seq<char>>(svg@),
            Err(e) => qr_svg_of(vstd::utf8::encode_utf8(ticket@), 240) == Err::<Seq<char>, Seq<char>>(e@),
        },
{
    qr_svg(ticket.as_str().as_bytes(), 240)
}

/// An invitation as the owner stores it, for the list: identifier, board,
/// permission, whether it is enabled, and when it was created.
pub type InviteRecord = (String, i64, IrohPermission, bool, String);

/// A device that used an invitation: the invitation's identifier, the
/// device's node identifier and its status.
pub type DeviceRecord = (String, String, IrohDeviceStatus);

/// The devices of `devices` that used invitation `invite_id`, in order.
pub open spec fn devices_of(devices: Seq<DeviceRecord>, invite_id: Seq<char>) -> Seq<(Seq<char>, IrohDeviceStatus)>
    decreases devices.len(),
{
    if devices.len() == 0 {
        Seq::empty()
    } else {
        let rest = devices_of(devices.drop_last(), invite_id);
        let d = devices.last();
        if d.0@ == invite_id {
            rest.push((d.1@, d.2))
        } else {
            rest
        }
    }
}

/// The name shown for board `id`: that of the last board with this
/// identifier, or "Deleted board".
pub open spec fn board_name_of(boards: Seq<Board>, id: i64) -> Seq<char>
    decreases boards.len(),
{
    if boards.len() == 0 {
        "Deleted board"@
    } else if boards.last().id == id {
        boards.last().name@
    } else {
        board_name_of(boards.drop_last(), id)
    }
}

/// The name shown for board `id`.
fn board_name_for(boards: &Vec<Board>, id: i64) -> (r: String)
    ensures
        r@ == board_name_of(boards@, id),
{
    let n = boards.len();
    let mut i = n;
    proof {
        assert(boards@.take(n as int) =~= boards@);
    }
    while i > 0
        invariant
            i <= n,
            n == boards@.len(),
            board_name_of(boards@, id) == board_name_of(boards@.take(i as int), id),
        decreases i,
    {
        proof {
            assert(boards@.take(i as int).drop_last() =~= boards@.take(i - 1));
            assert(boards@.take(i as int).last() == boards@[i - 1]);
        }
        if boards[i - 1].id == id {
            return boards[i - 1].name.clone();
        }
        i = i - 1;
    }
    proof {
        assert(boards@.take(0) =~= Seq::<Board>::empty());
    }
    String::from_str("Deleted board")
}

/// The view of a device in a summary.
pub open spec fn device_view(d: IrohDevice) -> (Seq<char>, IrohDeviceStatus) {
    (d.node_id@, d.status)
}

/// The devices that used invitation `invite_id`, in order.
fn devices_for(devices: &Vec<DeviceRecord>, invite_id: &String) -> (r: Vec<IrohDevice>)
    ensures
        r@.map_values(|d: IrohDevice| device_view(d)) == devices_of(devices@, invite_id@),
{
    let mut r: Vec<IrohDevice> = Vec::new();
    let n = devices.len();
    for k in 0..n
        invariant
            n == devices@.len(),
            r@.map_values(|d: IrohDevice| device_view(d)) == devices_of(devices@.take(k as int), invite_id@),
    {
        proof {
            assert(devices@.take(k + 1).drop_last() =~= devices@.take(k as int));
            assert(devices@.take(k + 1).last() == devices@[k as int]);
        }
        if devices[k].0 == *invite_id {
            let ghost before = r@;
            r.push(IrohDevice { node_id: devices[k].1.clone(), status: devices[k].2 });
            proof {
                assert(r@.map_values(|d: IrohDevice| device_view(d)) =~= before.map_values(
                    |d: IrohDevice| device_view(d),
                ).push((devices@[k as int].1@, devices@[k as int].2)));
            }
        }
    }
    proof {
        assert(devices@.take(n as int) =~= devices@);
    }
    r
}

/// Summary `s` shows invitation `i` with the devices that used it and the
/// name of its board.
pub open spec fn summarizes(
    s: IrohInviteSummary,
    i: InviteRecord,
    devices: Seq<DeviceRecord>,
    boards: Seq<Board>,
) -> bool {
    &&& s.invite_id@ == i.0@
    &&& s.board_id == i.1
    &&& s.board_name@ == board_name_of(boards, i.1)
    &&& s.permission == i.2
    &&& s.enabled == i.3
    &&& s.created_at@ == i.4@
    &&& s.devices@.map_values(|d: IrohDevice| device_view(d)) == devices_of(devices, i.0@)
}

/// The owner's list of invitations, in the order given, each with the
/// devices that used it and the name of its board.
pub fn invite_summaries(invites: &Vec<InviteRecord>, devices: &Vec<DeviceRecord>, boards: &Vec<Board>) -> (r: Vec<
    IrohInviteSummary,
>)
    ensures
        r@.len() == invites@.len(),
        forall|k: int| 0 <= k < r@.len() ==> summarizes(#[trigger] r@[k], invites@[k], devices@, boards@),
{
    let mut r: Vec<IrohInviteSummary> = Vec::new();
    let n = invites.len();
    for k in 0..n
        invariant
            n == invites@.len(),
            r@.len() == k,
            forall|q: int| 0 <= q < k ==> summarizes(#[trigger] r@[q], invites@[q], devices@, boards@),
    {
        let invite = &invites[k];
        let summary = IrohInviteSummary {
            invite_id: invite.0.clone(),
            board_id: invite.1,
            board_name: board_name_for(boards, invite.1),
            permission: invite.2,
            enabled: invite.3,
            created_at: invite.4.clone(),
            devices: devices_for(devices, &invite.0),
        };
        r.push(summary);
    }
    r
}

/// The first stored invitation with identifier `invite_id` is row `k`.
pub open spec fn first_invite(rows: Seq<(String, String, IrohPermission, bool)>, invite_id: Seq<char>, k: int) -> bool {
    &&& 0 <= k < rows.len()
    &&& rows[k].0@ == invite_id
    &&& forall|q: int| 0 <= q < k ==> #[trigger] rows[q].0@ != invite_id
}

/// The secret and permission of invitation `invite_id` among the stored
/// rows (identifier, secret, permission, enabled), for copying its link:
/// refused where there is no such invitation, or it is disabled.
pub fn copyable_invite(rows: &Vec<(String, String, IrohPermission, bool)>, invite_id: &String) -> (r: Result<
    (String, IrohPermission),
    String,
>)
    ensures
        (forall|k: int| 0 <= k < rows@.len() ==> #[trigger] rows@[k].0@ != invite_id@) ==> (r matches Err(e) && e@
            == "Invitation not found"@),
        forall|k: int| #[trigger]
            first_invite(rows@, invite_id@, k) ==> if rows@[k].3 {
                r matches Ok(p) && p.0@ == rows@[k].1@ && p.1 == rows@[k].2
            } else {
                r matches Err(e) && e@ == "Enable this invitation before copying it"@
            },
{
    let n = rows.len();
    for k in 0..n
        invariant
            n == rows@.len(),
            forall|q: int| 0 <= q < k ==> #[trigger] rows@[q].0@ != invite_id@,
    {
        if rows[k].0 == *invite_id {
            proof {
                assert forall|j: int| #[trigger] first_invite(rows@, invite_id@, j) implies j == k by {
                    if k < j {
                        assert(rows@[k as int].0@ == invite_id@);
                    }
                }
            }
            if !rows[k].3 {
                return Err(String::from_str("Enable this invitation before copying it"));
            }
            return Ok((rows[k].1.clone(), rows[k].2));
        }
    }
    Err(String::from_str("Invitation not found"))
}

} // verus!
