//! Read-only sharing of a board on the local network: which links and
//! files the viewer may serve, and the lifecycle of share links.
use vstd::prelude::*;
use vstd::string::StringExecFns;
use chrono::{DateTime, Utc};
use crate::encoding::{base64_standard, encode_base64_standard, sha256_digest, sha256_of, utf8_is_valid};
use crate::text::{before_char, str_strip_prefix,
    chars_of, contains, has_char, is_ascii_alnum, starts_with, str_contains, str_eq, str_starts_with};

verus! {

/// A share identifier: 22 to 64 characters, each an ASCII letter or digit,
/// `_` or `-`, so that it cannot be guessed and stays URL-safe.
pub open spec fn share_id_valid(id: Seq<char>) -> bool {
    22 <= id.len() <= 64 && forall|i: int|
        0 <= i < id.len() ==> is_ascii_alnum(#[trigger] id[i]) || id[i] == '_' || id[i] == '-'
}

/// Whether `id` is a valid share identifier: see [`share_id_valid`].
pub fn valid_share_id(id: &str) -> (r: bool)
    ensures
        r == share_id_valid(id@),
{
    let v = chars_of(id);
    if v.len() < 22 || v.len() > 64 {
        return false;
    }
    let mut i: usize = 0;
    while i < v.len()
        invariant
            v@ == id@,
            i <= v.len(),
            forall|k: int| 0 <= k < i ==> is_ascii_alnum(#[trigger] v@[k]) || v@[k] == '_' || v@[k] == '-',
        decreases v.len() - i,
    {
        let c = v[i];
        if !(('0' <= c && c <= '9') || ('a' <= c && c <= 'z') || ('A' <= c && c <= 'Z') || c == '_' || c
            == '-') {
            return false;
        }
        i = i + 1;
    }
    true
}

/// A file of the built viewer that may be served: the icon, or a file under
/// `_app/` whose path cannot climb out or be re-encoded.
pub open spec fn asset_allowed(path: Seq<char>) -> bool {
    path == "favicon.png"@ || (starts_with(path, "_app/"@) && !contains(path, ".."@) && !has_char(path, '\\')
        && !has_char(path, '%') && !has_char(path, ':'))
}

/// Whether `path` is a file of the built viewer that may be served: see
/// [`asset_allowed`].
pub fn production_asset_allowed(path: &str) -> (r: bool)
    ensures
        r == asset_allowed(path@),
{
    let v = chars_of(path);
    str_eq(path, "favicon.png") || (str_starts_with(path, "_app/") && !str_contains(path, "..")
        && !crate::text::seq_has_char(v.as_slice(), '\\') && !crate::text::seq_has_char(v.as_slice(), '%')
        && !crate::text::seq_has_char(v.as_slice(), ':'))
}

/// Whether the LAN viewer may serve the file at `path`. The built
/// application serves only the files that [`production_asset_allowed`]
/// admits.
pub fn is_public_viewer_asset(path: &str) -> (r: bool)
    ensures
        r == asset_allowed(path@),
{
    production_asset_allowed(path)
}

/// A network address of this computer.
pub enum LanIp {
    V4([u8; 4]),
    V6([u16; 8]),
}

/// Only reachable from the local network: the private IPv4 ranges
/// 10.0.0.0/8, 172.16.0.0/12 and 192.168.0.0/16, IPv4 link-local
/// 169.254.0.0/16, IPv6 link-local fe80::/10 and unique-local fc00::/7.
pub open spec fn lan_only(ip: LanIp) -> bool {
    match ip {
        LanIp::V4(o) => o@[0] == 10 || (o@[0] == 172 && 16 <= o@[1] <= 31) || (o@[0] == 192 && o@[1] == 168)
            || (o@[0] == 169 && o@[1] == 254),
        LanIp::V6(s) => (0xfe80 <= s@[0] <= 0xfebf) || (0xfc00 <= s@[0] <= 0xfdff),
    }
}

/// Whether the address is reachable only from the local network: see
/// [`lan_only`]. A public address is never used to share.
pub fn is_private_lan_address(ip: &LanIp) -> (r: bool)
    ensures
        r == lan_only(*ip),
{
    match ip {
        LanIp::V4(o) => o[0] == 10 || (o[0] == 172 && 16 <= o[1] && o[1] <= 31) || (o[0] == 192 && o[1] == 168)
            || (o[0] == 169 && o[1] == 254),
        LanIp::V6(s) => {
            let first = s[0];
            let link_local = (first & 0xffc0) == 0xfe80;
            let unique_local = (first & 0xfe00) == 0xfc00;
            assert(((first & 0xffc0) == 0xfe80) == (0xfe80 <= first && first <= 0xfebf)) by (bit_vector);
            assert(((first & 0xfe00) == 0xfc00) == (0xfc00 <= first && first <= 0xfdff)) by (bit_vector);
            link_local || unique_local
        },
    }
}

/// The directory of the development server's generated files for `port`.
pub fn generated_dir(port: u16) -> (r: String)
    ensures
        port == 1420 ==> r@ == ".svelte-kit"@,
        port != 1420 ==> r@ == ".svelte-kit-dev-"@ + crate::text::nat_decimal(port as nat),
{
    if port == 1420 {
        String::from_str(".svelte-kit")
    } else {
        let mut r = String::from_str(".svelte-kit-dev-");
        crate::text::push_u128_decimal(&mut r, port as u128);
        r
    }
}


/// A board shared on the local network: the board's snapshot, when it was
/// published, and when it stops being served, as seconds and nanoseconds
/// since the Unix epoch.
pub struct LanShare<S> {
    pub snapshot: S,
    pub updated_at: String,
    pub expires_at: Option<(i64, u32)>,
}

/// The share links: the active shares by identifier, and the identifiers
/// of links that were disabled and may only come back when asked for.
pub struct LanShareRegistry<S> {
    pub shares: Vec<(String, LanShare<S>)>,
    pub retired: Vec<String>,
}

/// The share published under `id`, the first one if several.
pub open spec fn lookup<S>(shares: Seq<(String, LanShare<S>)>, id: Seq<char>) -> Option<LanShare<S>>
    decreases shares.len(),
{
    if shares.len() == 0 {
        None
    } else if shares[0].0@ == id {
        Some(shares[0].1)
    } else {
        lookup(shares.drop_first(), id)
    }
}

/// `id` is among the disabled links.
pub open spec fn is_retired(retired: Seq<String>, id: Seq<char>) -> bool {
    exists|i: int| 0 <= i < retired.len() && #[trigger] retired[i]@ == id
}

/// No identifier is listed twice.
pub open spec fn ids_distinct<S>(shares: Seq<(String, LanShare<S>)>) -> bool {
    forall|i: int, j: int| 0 <= i < j < shares.len() ==> #[trigger] shares[i].0@ != #[trigger] shares[j].0@
}

/// Instant `a` is not after instant `b`.
pub open spec fn not_after(a: (i64, u32), b: (i64, u32)) -> bool {
    a.0 < b.0 || (a.0 == b.0 && a.1 <= b.1)
}

proof fn lemma_lookup_at<S>(shares: Seq<(String, LanShare<S>)>, id: Seq<char>, i: int)
    requires
        0 <= i < shares.len(),
        shares[i].0@ == id,
        forall|k: int| 0 <= k < i ==> shares[k].0@ != id,
    ensures
        lookup(shares, id) == Some(shares[i].1),
    decreases i,
{
    if i > 0 {
        lemma_lookup_at(shares.drop_first(), id, i - 1);
    }
}

proof fn lemma_lookup_absent<S>(shares: Seq<(String, LanShare<S>)>, id: Seq<char>)
    requires
        forall|k: int| 0 <= k < shares.len() ==> shares[k].0@ != id,
    ensures
        lookup(shares, id) is None,
    decreases shares.len(),
{
    if shares.len() > 0 {
        lemma_lookup_absent(shares.drop_first(), id);
    }
}

proof fn lemma_lookup_found<S>(shares: Seq<(String, LanShare<S>)>, id: Seq<char>)
    requires
        lookup(shares, id) is Some,
    ensures
        exists|i: int| 0 <= i < shares.len() && #[trigger] shares[i].0@ == id && lookup(shares, id) == Some(
            shares[i].1,
        ),
    decreases shares.len(),
{
    if shares[0].0@ != id {
        lemma_lookup_found(shares.drop_first(), id);
        let i = choose|i: int|
            0 <= i < shares.drop_first().len() && #[trigger] shares.drop_first()[i].0@ == id && lookup(
                shares.drop_first(),
                id,
            ) == Some(shares.drop_first()[i].1);
        assert(shares[i + 1].0@ == id);
    }
}

/// Changing entries whose identifier is `id` changes no other lookup.
proof fn lemma_lookup_other<S>(a: Seq<(String, LanShare<S>)>, b: Seq<(String, LanShare<S>)>, id: Seq<char>, k: Seq<char>)
    requires
        a.len() == b.len(),
        k != id,
        forall|i: int| 0 <= i < a.len() ==> a[i] == b[i] || (a[i].0@ == id && b[i].0@ == id),
    ensures
        lookup(a, k) == lookup(b, k),
    decreases a.len(),
{
    if a.len() > 0 {
        lemma_lookup_other(a.drop_first(), b.drop_first(), id, k);
    }
}

proof fn lemma_lookup_push<S>(shares: Seq<(String, LanShare<S>)>, x: (String, LanShare<S>), k: Seq<char>)
    ensures
        lookup(shares.push(x), k) == (if lookup(shares, k) is Some {
            lookup(shares, k)
        } else if x.0@ == k {
            Some(x.1)
        } else {
            None
        }),
    decreases shares.len(),
{
    if shares.len() == 0 {
        assert(shares.push(x).drop_first() =~= Seq::<(String, LanShare<S>)>::empty());
        assert(lookup(Seq::<(String, LanShare<S>)>::empty(), k) is None);
        assert(shares.push(x)[0] == x);
    } else {
        assert(shares.push(x).drop_first() =~= shares.drop_first().push(x));
        assert(shares.push(x)[0] == shares[0]);
        lemma_lookup_push(shares.drop_first(), x, k);
    }
}

proof fn lemma_lookup_remove<S>(shares: Seq<(String, LanShare<S>)>, i: int, k: Seq<char>)
    requires
        0 <= i < shares.len(),
        ids_distinct(shares),
    ensures
        lookup(shares.remove(i), k) == (if shares[i].0@ == k {
            None
        } else {
            lookup(shares, k)
        }),
    decreases shares.len(),
{
    if i == 0 {
        assert(shares.remove(0) =~= shares.drop_first());
        if shares[0].0@ == k {
            assert forall|q: int| 0 <= q < shares.drop_first().len() implies shares.drop_first()[q].0@ != k by {
                assert(shares[0].0@ != shares[q + 1].0@);
            }
            lemma_lookup_absent(shares.drop_first(), k);
        }
    } else {
        assert(shares.remove(i).drop_first() =~= shares.drop_first().remove(i - 1));
        assert forall|a: int, b: int|
            0 <= a < b < shares.drop_first().len() implies #[trigger] shares.drop_first()[a].0@
            != #[trigger] shares.drop_first()[b].0@ by {
            assert(shares[a + 1].0@ != shares[b + 1].0@);
        }
        lemma_lookup_remove(shares.drop_first(), i - 1, k);
        if shares[i].0@ == k {
            assert(shares[0].0@ != shares[i].0@);
        }
    }
}

/// The index of the entry of `shares` whose identifier is `id`.
fn find_share<S>(shares: &Vec<(String, LanShare<S>)>, id: &str) -> (r: Option<usize>)
    ensures
        r matches Some(i) ==> i < shares@.len() && shares@[i as int].0@ == id@ && lookup(shares@, id@) == Some(
            shares@[i as int].1,
        ),
        r is None ==> lookup(shares@, id@) is None && forall|k: int|
            0 <= k < shares@.len() ==> shares@[k].0@ != id@,
{
    let n = shares.len();
    for i in 0..n
        invariant
            n == shares@.len(),
            forall|k: int| 0 <= k < i ==> shares@[k].0@ != id@,
    {
        if str_eq(shares[i].0.as_str(), id) {
            proof {
                lemma_lookup_at(shares@, id@, i as int);
            }
            return Some(i);
        }
    }
    proof {
        lemma_lookup_absent(shares@, id@);
    }
    None
}

/// The index in `retired` of `id`.
fn find_retired(retired: &Vec<String>, id: &str) -> (r: Option<usize>)
    ensures
        r matches Some(i) ==> i < retired@.len() && retired@[i as int]@ == id@,
        r is None <==> !is_retired(retired@, id@),
{
    let n = retired.len();
    for i in 0..n
        invariant
            n == retired@.len(),
            forall|k: int| 0 <= k < i ==> retired@[k]@ != id@,
    {
        if str_eq(retired[i].as_str(), id) {
            return Some(i);
        }
    }
    None
}

impl<S> LanShareRegistry<S> {
    /// No share and no retired identifier is listed twice.
    pub open spec fn wf(&self) -> bool {
        &&& ids_distinct(self.shares@)
        &&& forall|i: int, j: int|
            0 <= i < j < self.retired@.len() ==> #[trigger] self.retired@[i]@ != #[trigger] self.retired@[j]@
    }

    /// The share served under `id`.
    pub open spec fn share(&self, id: Seq<char>) -> Option<LanShare<S>> {
        lookup(self.shares@, id)
    }

    /// `id` names a disabled link.
    pub open spec fn disabled(&self, id: Seq<char>) -> bool {
        is_retired(self.retired@, id)
    }

    /// No share links yet.
    pub fn new() -> (r: Self)
        ensures
            r.wf(),
            forall|id: Seq<char>| r.share(id) is None && !r.disabled(id),
    {
        LanShareRegistry { shares: Vec::new(), retired: Vec::new() }
    }

    /// Publishes `share` under `id`, replacing what was there. A disabled
    /// link is refused unless `allow_reactivate`, which brings it back.
    /// Other links are not touched.
    pub fn replace_share(&mut self, share_id: String, share: LanShare<S>, allow_reactivate: bool) -> (r: Result<
        (),
        String,
    >)
        requires
            old(self).wf(),
        ensures
            final(self).wf(),
            replaced(
                *old(self),
                *final(self),
                share_id@,
                share,
                allow_reactivate,
                crate::archive::unit_result_view(r),
            ),
    {
        let ghost old_shares = self.shares@;
        let ghost old_retired = self.retired@;
        match find_retired(&self.retired, share_id.as_str()) {
            Some(i) => {
                if !allow_reactivate {
                    return Err(String::from_str("This share link was disabled. Create a new share link."));
                }
                self.retired.remove(i);
                proof {
                    assert forall|k: Seq<char>| k != share_id@ implies #[trigger] is_retired(self.retired@, k)
                        == is_retired(old_retired, k) by {
                        if is_retired(old_retired, k) {
                            let j = choose|j: int| 0 <= j < old_retired.len() && #[trigger] old_retired[j]@ == k;
                            if j < i {
                                assert(self.retired@[j]@ == k);
                            } else {
                                assert(self.retired@[j - 1]@ == k);
                            }
                        }
                        if is_retired(self.retired@, k) {
                            let j = choose|j: int| 0 <= j < self.retired@.len() && #[trigger] self.retired@[j]@ == k;
                            if j < i {
                                assert(old_retired[j]@ == k);
                            } else {
                                assert(old_retired[j + 1]@ == k);
                            }
                        }
                    }
                    assert forall|j: int| 0 <= j < self.retired@.len() implies self.retired@[j]@ != share_id@ by {
                        if j < i {
                            assert(old_retired[j]@ != old_retired[i as int]@);
                        } else {
                            assert(old_retired[j + 1]@ != old_retired[i as int]@);
                        }
                    }
                }
            },
            None => {},
        }
        let ghost retired_now = self.retired@;
        match find_share(&self.shares, share_id.as_str()) {
            Some(i) => {
                let ghost key = share_id@;
                self.shares.set(i, (share_id, share));
                proof {
                    lemma_lookup_at(self.shares@, key, i as int);
                    assert forall|k: Seq<char>| k != key implies lookup(self.shares@, k) == lookup(old_shares, k) by {
                        lemma_lookup_other(self.shares@, old_shares, key, k);
                    }
                    assert forall|a: int, b: int|
                        0 <= a < b < self.shares@.len() implies #[trigger] self.shares@[a].0@
                        != #[trigger] self.shares@[b].0@ by {
                        assert(old_shares[a].0@ != old_shares[b].0@);
                    }
                }
            },
            None => {
                let ghost key = share_id@;
                let ghost entry = (share_id, share);
                self.shares.push((share_id, share));
                proof {
                    assert(self.shares@ == old_shares.push(entry));
                    lemma_lookup_push(old_shares, entry, key);
                    assert forall|k: Seq<char>| k != key implies lookup(self.shares@, k) == lookup(old_shares, k) by {
                        lemma_lookup_push(old_shares, entry, k);
                    }
                    assert forall|a: int, b: int|
                        0 <= a < b < self.shares@.len() implies #[trigger] self.shares@[a].0@
                        != #[trigger] self.shares@[b].0@ by {
                        if b < old_shares.len() {
                            assert(old_shares[a].0@ != old_shares[b].0@);
                        }
                    }
                }
            },
        }
        proof {
            assert forall|k: Seq<char>| k != share_id@ implies #[trigger] is_retired(self.retired@, k) == is_retired(
                old_retired,
                k,
            ) by {}
        }
        Ok(())
    }

    /// Disables the link `share_id`: it stops being served and cannot be
    /// published again unless asked for. Other links are not touched.
    pub fn revoke(&mut self, share_id: String) -> (r: Result<(), String>)
        requires
            old(self).wf(),
        ensures
            final(self).wf(),
            r is Ok,
            revoked(*old(self), *final(self), share_id@),
    {
        let ghost old_shares = self.shares@;
        let ghost old_retired = self.retired@;
        match find_retired(&self.retired, share_id.as_str()) {
            Some(_) => {},
            None => {
                let ghost key = share_id@;
                self.retired.push(share_id.clone());
                proof {
                    assert(self.retired@.last()@ == key);
                    assert forall|k: Seq<char>| k != key implies #[trigger] is_retired(self.retired@, k) == is_retired(
                        old_retired,
                        k,
                    ) by {
                        if is_retired(old_retired, k) {
                            let j = choose|j: int| 0 <= j < old_retired.len() && #[trigger] old_retired[j]@ == k;
                            assert(self.retired@[j]@ == k);
                        }
                        if is_retired(self.retired@, k) {
                            let j = choose|j: int| 0 <= j < self.retired@.len() && #[trigger] self.retired@[j]@ == k;
                            assert(old_retired[j]@ == k);
                        }
                    }
                    assert(is_retired(self.retired@, key)) by {
                        assert(self.retired@[self.retired@.len() - 1]@ == key);
                    }
                }
            },
        }
        match find_share(&self.shares, share_id.as_str()) {
            Some(i) => {
                self.shares.remove(i);
                proof {
                    lemma_lookup_remove(old_shares, i as int, share_id@);
                    assert forall|k: Seq<char>| k != share_id@ implies lookup(self.shares@, k) == lookup(old_shares, k) by {
                        lemma_lookup_remove(old_shares, i as int, k);
                    }
                    assert forall|a: int, b: int|
                        0 <= a < b < self.shares@.len() implies #[trigger] self.shares@[a].0@
                        != #[trigger] self.shares@[b].0@ by {
                        let oa = if a < i { a } else { a + 1 };
                        let ob = if b < i { b } else { b + 1 };
                        assert(old_shares[oa].0@ != old_shares[ob].0@);
                    }
                }
            },
            None => {},
        }
        Ok(())
    }

    /// The share served under `id` at `now`: a share whose expiry has come
    /// is removed and not served.
    pub fn active_share(&mut self, id: &str, now: (i64, u32)) -> (r: bool)
        requires
            old(self).wf(),
        ensures
            final(self).wf(),
            final(self).retired@ == old(self).retired@,
            r == (old(self).share(id@) matches Some(s) && !(s.expires_at matches Some(e) && not_after(e, now))),
            !r ==> final(self).share(id@) is None,
            r ==> final(self).share(id@) == old(self).share(id@),
            forall|k: Seq<char>| k != id@ ==> #[trigger] final(self).share(k) == old(self).share(k),
    {
        let ghost old_shares = self.shares@;
        match find_share(&self.shares, id) {
            None => false,
            Some(i) => {
                let expired = match self.shares[i].1.expires_at {
                    Some(e) => e.0 < now.0 || (e.0 == now.0 && e.1 <= now.1),
                    None => false,
                };
                if expired {
                    self.shares.remove(i);
                    proof {
                        lemma_lookup_remove(old_shares, i as int, id@);
                        assert forall|k: Seq<char>| k != id@ implies lookup(self.shares@, k) == lookup(old_shares, k) by {
                            lemma_lookup_remove(old_shares, i as int, k);
                        }
                        assert forall|a: int, b: int|
                            0 <= a < b < self.shares@.len() implies #[trigger] self.shares@[a].0@
                            != #[trigger] self.shares@[b].0@ by {
                            let oa = if a < i { a } else { a + 1 };
                            let ob = if b < i { b } else { b + 1 };
                            assert(old_shares[oa].0@ != old_shares[ob].0@);
                        }
                    }
                    false
                } else {
                    true
                }
            },
        }
    }

    /// The share served under `id`, without looking at its expiry.
    pub fn get(&self, id: &str) -> (r: Option<&LanShare<S>>)
        ensures
            match r {
                Some(s) => self.share(id@) == Some(*s),
                None => self.share(id@) is None,
            },
    {
        match find_share(&self.shares, id) {
            Some(i) => Some(&self.shares[i].1),
            None => None,
        }
    }
}

/// What publishing `share` under `id` does: a disabled link is refused,
/// with nothing changed, unless `allow_reactivate`; otherwise the share is
/// served under `id`, which is no longer disabled, and no other link
/// changes.
pub open spec fn replaced<S>(
    before: LanShareRegistry<S>,
    after: LanShareRegistry<S>,
    id: Seq<char>,
    share: LanShare<S>,
    allow_reactivate: bool,
    r: Result<(), Seq<char>>,
) -> bool {
    if before.disabled(id) && !allow_reactivate {
        &&& r == Err::<(), Seq<char>>("This share link was disabled. Create a new share link."@)
        &&& after.shares@ == before.shares@
        &&& after.retired@ == before.retired@
    } else {
        &&& r is Ok
        &&& after.share(id) == Some(share)
        &&& !after.disabled(id)
        &&& forall|k: Seq<char>|
            #![trigger after.share(k)]
            #![trigger after.disabled(k)]
            k != id ==> after.share(k) == before.share(k) && after.disabled(k) == before.disabled(k)
    }
}

/// What disabling the link `id` does: it is no longer served and is
/// disabled; no other link changes.
pub open spec fn revoked<S>(before: LanShareRegistry<S>, after: LanShareRegistry<S>, id: Seq<char>) -> bool {
    &&& after.share(id) is None
    &&& after.disabled(id)
    &&& forall|k: Seq<char>|
        #![trigger after.share(k)]
        #![trigger after.disabled(k)]
        k != id ==> after.share(k) == before.share(k) && after.disabled(k) == before.disabled(k)
}

/// A disabled link stays disabled: publishing it again without asking for
/// it back is refused, and it is still not served.
pub proof fn lemma_disabled_link_stays_disabled<S>(
    r0: LanShareRegistry<S>,
    r1: LanShareRegistry<S>,
    r2: LanShareRegistry<S>,
    id: Seq<char>,
    share: LanShare<S>,
    r: Result<(), Seq<char>>,
)
    requires
        revoked(r0, r1, id),
        replaced(r1, r2, id, share, false, r),
    ensures
        r is Err,
        r2.share(id) is None,
        r2.disabled(id),
{
    assert(r2.shares@ == r1.shares@);
    assert(r2.retired@ == r1.retired@);
}

/// Asking for a link back publishes it, whether it was disabled, active or
/// unknown.
pub proof fn lemma_reactivated_link_is_served<S>(
    r1: LanShareRegistry<S>,
    r2: LanShareRegistry<S>,
    id: Seq<char>,
    share: LanShare<S>,
    r: Result<(), Seq<char>>,
)
    requires
        replaced(r1, r2, id, share, true, r),
    ensures
        r is Ok,
        r2.share(id) == Some(share),
        !r2.disabled(id),
{
}

/// Publishing or disabling one link leaves every other link as it was.
pub proof fn lemma_other_links_untouched<S>(
    r1: LanShareRegistry<S>,
    r2: LanShareRegistry<S>,
    r3: LanShareRegistry<S>,
    id: Seq<char>,
    other: Seq<char>,
    share: LanShare<S>,
    allow_reactivate: bool,
    r: Result<(), Seq<char>>,
)
    requires
        other != id,
        replaced(r1, r2, id, share, allow_reactivate, r),
        revoked(r2, r3, id),
    ensures
        r2.share(other) == r1.share(other),
        r3.share(other) == r1.share(other),
        r3.disabled(other) == r1.disabled(other),
{
    if r1.disabled(id) && !allow_reactivate {
        assert(r2.disabled(other) == r1.disabled(other)) by {
            assert(r2.retired@ == r1.retired@);
        }
        assert(r2.share(other) == r1.share(other)) by {
            assert(r2.shares@ == r1.shares@);
        }
    }
}


/// `needle` occurs in `hay` at `at`.
pub open spec fn occurs_at(hay: Seq<u8>, needle: Seq<u8>, at: int) -> bool {
    0 <= at && at + needle.len() <= hay.len() && hay.subrange(at, at + needle.len()) == needle
}

/// The first index at or after `from` where `needle` occurs in `hay`.
pub open spec fn find_bytes(hay: Seq<u8>, needle: Seq<u8>, from: int) -> Option<int>
    decreases hay.len() + 1 - from,
{
    if from < 0 || from + needle.len() > hay.len() {
        None
    } else if occurs_at(hay, needle, from) {
        Some(from)
    } else {
        find_bytes(hay, needle, from + 1)
    }
}

/// A found occurrence lies at or after where the search started.
pub proof fn lemma_find_bytes_after(hay: Seq<u8>, needle: Seq<u8>, from: int)
    ensures
        find_bytes(hay, needle, from) matches Some(i) ==> from <= i && i + needle.len() <= hay.len()
            && occurs_at(hay, needle, i),
    decreases hay.len() + 1 - from,
{
    if !(from < 0 || from + needle.len() > hay.len()) && !occurs_at(hay, needle, from) {
        lemma_find_bytes_after(hay, needle, from + 1);
    }
}

/// The bytes of `<script`.
pub open spec fn script_open() -> Seq<u8> {
    seq![60u8, 115, 99, 114, 105, 112, 116]
}

/// The bytes of `</script>`.
pub open spec fn script_close() -> Seq<u8> {
    seq![60u8, 47, 115, 99, 114, 105, 112, 116, 62]
}

/// The bytes of `src=`.
pub open spec fn src_attribute() -> Seq<u8> {
    seq![115u8, 114, 99, 61]
}

/// The byte of `>`.
pub open spec fn tag_close() -> Seq<u8> {
    seq![62u8]
}

/// The content-security-policy source that admits a script with these
/// contents.
pub open spec fn hash_source(content: Seq<u8>) -> Seq<char> {
    "'sha256-"@ + base64_standard(sha256_of(content)) + "'"@
}

/// The sources of the inline scripts of the HTML `html` from `cursor` on,
/// in order: each `<script` tag without a `src=` attribute, up to its
/// `</script>`, gives the hash of its contents. The scan stops at a tag
/// that is not closed.
pub open spec fn script_hashes(html: Seq<u8>, cursor: int) -> Seq<Seq<char>>
    decreases html.len() - cursor,
{
    if cursor < 0 || cursor > html.len() {
        Seq::empty()
    } else {
        match find_bytes(html, script_open(), cursor) {
            None => Seq::empty(),
            Some(tag_start) => match find_bytes(html, tag_close(), tag_start) {
                None => Seq::empty(),
                Some(tag_end) => match find_bytes(html, script_close(), tag_end + 1) {
                    None => Seq::empty(),
                    Some(script_end) => {
                        proof {
                            lemma_find_bytes_after(html, script_open(), cursor);
                            lemma_find_bytes_after(html, tag_close(), tag_start);
                            lemma_find_bytes_after(html, script_close(), tag_end + 1);
                        }
                        let rest = script_hashes(html, script_end + 9);
                        if find_bytes(html.subrange(tag_start, tag_end + 1), src_attribute(), 0) is Some {
                            rest
                        } else {
                            seq![hash_source(html.subrange(tag_end + 1, script_end))] + rest
                        }
                    },
                },
            },
        }
    }
}

/// Whether `needle` occurs in `hay` at `at`.
fn bytes_at(hay: &[u8], at: usize, needle: &[u8]) -> (r: bool)
    requires
        at <= hay@.len(),
    ensures
        r == occurs_at(hay@, needle@, at as int),
{
    let n = hay.len();
    let m = needle.len();
    if m > n - at {
        return false;
    }
    let mut k: usize = 0;
    while k < m
        invariant
            n == hay@.len(),
            m == needle@.len(),
            at + m <= n,
            k <= m,
            forall|q: int| 0 <= q < k ==> hay@[at + q] == needle@[q],
        decreases m - k,
    {
        if hay[at + k] != needle[k] {
            assert(hay@.subrange(at as int, at + needle@.len())[k as int] != needle@[k as int]);
            return false;
        }
        k = k + 1;
    }
    assert(hay@.subrange(at as int, at + needle@.len()) =~= needle@);
    true
}

/// The first index at or after `from` where `needle` occurs in `hay`.
fn find_bytes_from(hay: &[u8], needle: &[u8], from: usize) -> (r: Option<usize>)
    requires
        from <= hay@.len(),
    ensures
        match r {
            Some(i) => find_bytes(hay@, needle@, from as int) == Some(i as int),
            None => find_bytes(hay@, needle@, from as int) is None,
        },
{
    let n = hay.len();
    let m = needle.len();
    if m == 0 {
        assert(hay@.subrange(from as int, from as int) =~= needle@);
        return Some(from);
    }
    if m > n - from {
        return None;
    }
    let last = n - m;
    let mut i = from;
    while i <= last
        invariant
            n == hay@.len(),
            m == needle@.len(),
            m >= 1,
            last == n - m,
            from <= i <= last + 1,
            find_bytes(hay@, needle@, from as int) == find_bytes(hay@, needle@, i as int),
        decreases last + 1 - i,
    {
        if bytes_at(hay, i, needle) {
            return Some(i);
        }
        i = i + 1;
    }
    None
}

/// A copy of `v[from..to]`.
fn byte_range(v: &[u8], from: usize, to: usize) -> (r: Vec<u8>)
    requires
        from <= to <= v@.len(),
    ensures
        r@ == v@.subrange(from as int, to as int),
{
    let mut r: Vec<u8> = Vec::new();
    let mut i = from;
    while i < to
        invariant
            from <= i <= to <= v@.len(),
            r@ == v@.subrange(from as int, i as int),
        decreases to - i,
    {
        r.push(v[i]);
        i = i + 1;
        assert(r@ =~= v@.subrange(from as int, i as int));
    }
    r
}

/// The sources of the inline scripts of `body`, when it is UTF-8 text:
/// see [`script_hashes`].
pub fn inline_script_hashes(body: &[u8]) -> (r: Vec<String>)
    ensures
        r@.map_values(|s: String| s@) == (if vstd::utf8::valid_utf8(body@) {
            script_hashes(body@, 0)
        } else {
            Seq::empty()
        }),
{
    let mut hashes: Vec<String> = Vec::new();
    if !utf8_is_valid(body) {
        proof {
            assert(hashes@.map_values(|s: String| s@) =~= Seq::<Seq<char>>::empty());
        }
        return hashes;
    }
    let open_tag: [u8; 7] = [60, 115, 99, 114, 105, 112, 116];
    let close_script: [u8; 9] = [60, 47, 115, 99, 114, 105, 112, 116, 62];
    let src_attr: [u8; 4] = [115, 114, 99, 61];
    let gt: [u8; 1] = [62];
    proof {
        assert(open_tag@ =~= script_open());
        assert(close_script@ =~= script_close());
        assert(src_attr@ =~= src_attribute());
        assert(gt@ =~= tag_close());
    }
    let mut cursor: usize = 0;
    let n = body.len();
    loop
        invariant
            n == body@.len(),
            vstd::utf8::valid_utf8(body@),
            cursor <= body@.len(),
            open_tag@ == script_open(),
            close_script@ == script_close(),
            src_attr@ == src_attribute(),
            gt@ == tag_close(),
            hashes@.map_values(|s: String| s@) + script_hashes(body@, cursor as int) == script_hashes(body@, 0),
        decreases body@.len() - cursor,
    {
        let ghost before = hashes@.map_values(|s: String| s@);
        let tag_start = match find_bytes_from(body, open_tag.as_slice(), cursor) {
            Some(i) => i,
            None => {
                proof {
                    assert(before + Seq::<Seq<char>>::empty() =~= before);
                }
                return hashes;
            },
        };
        proof {
            lemma_find_bytes_after(body@, script_open(), cursor as int);
        }
        let tag_end = match find_bytes_from(body, gt.as_slice(), tag_start) {
            Some(i) => i,
            None => {
                proof {
                    assert(before + Seq::<Seq<char>>::empty() =~= before);
                }
                return hashes;
            },
        };
        proof {
            lemma_find_bytes_after(body@, tag_close(), tag_start as int);
        }
        let content_start = tag_end + 1;
        let script_end = match find_bytes_from(body, close_script.as_slice(), content_start) {
            Some(i) => i,
            None => {
                proof {
                    assert(before + Seq::<Seq<char>>::empty() =~= before);
                }
                return hashes;
            },
        };
        proof {
            lemma_find_bytes_after(body@, script_close(), content_start as int);
        }
        let opening = byte_range(body, tag_start, tag_end + 1);
        let has_src = find_bytes_from(opening.as_slice(), src_attr.as_slice(), 0).is_some();
        if !has_src {
            let content = byte_range(body, content_start, script_end);
            let digest = sha256_digest(content.as_slice());
            let mut source = String::from_str("'sha256-");
            let encoded = encode_base64_standard(digest.as_slice());
            source.append(encoded.as_str());
            source.append("'");
            let ghost h = hashes@;
            hashes.push(source);
            proof {
                assert(hashes@.map_values(|s: String| s@) =~= h.map_values(|s: String| s@).push(
                    hash_source(body@.subrange(content_start as int, script_end as int)),
                ));
                assert(before.push(hash_source(body@.subrange(content_start as int, script_end as int)))
                    + script_hashes(body@, script_end + 9) =~= before + (seq![
                    hash_source(body@.subrange(content_start as int, script_end as int)),
                ] + script_hashes(body@, script_end + 9)));
            }
        }
        cursor = script_end + 9;
    }
}

/// The policy before the script sources.
pub open spec fn policy_head() -> Seq<char> {
    "default-src 'self'; connect-src 'self'; img-src 'self' data:; style-src 'self' 'unsafe-inline'; script-src "@
}

/// The policy after the script sources.
pub open spec fn policy_tail() -> Seq<char> {
    "; object-src 'none'; base-uri 'none'; frame-ancestors 'none'; form-action 'none'"@
}

/// `parts` joined by single spaces.
pub open spec fn joined(parts: Seq<Seq<char>>) -> Seq<char>
    decreases parts.len(),
{
    if parts.len() == 0 {
        Seq::empty()
    } else if parts.len() == 1 {
        parts[0]
    } else {
        joined(parts.drop_last()) + " "@ + parts.last()
    }
}

/// The content security policy of a file the LAN viewer serves: scripts
/// only from the viewer itself and, in an HTML page, the page's own inline
/// scripts by hash.
pub open spec fn viewer_policy(mime_type: Seq<char>, body: Seq<u8>) -> Seq<char> {
    let hashes = if starts_with(mime_type, "text/html"@) && vstd::utf8::valid_utf8(body) {
        script_hashes(body, 0)
    } else {
        Seq::empty()
    };
    policy_head() + (if hashes.len() == 0 {
        "'self'"@
    } else {
        "'self' "@ + joined(hashes)
    }) + policy_tail()
}

/// The content security policy of a file the LAN viewer serves: see
/// [`viewer_policy`].
pub fn content_security_policy(mime_type: &str, body: &[u8]) -> (r: String)
    ensures
        r@ == viewer_policy(mime_type@, body@),
{
    let hashes = if str_starts_with(mime_type, "text/html") {
        inline_script_hashes(body)
    } else {
        Vec::new()
    };
    let ghost hs = hashes@.map_values(|s: String| s@);
    proof {
        reveal_strlit("'self'");
        reveal_strlit("'self' ");
        reveal_strlit(" ");
    }
    let mut r = String::from_str(
        "default-src 'self'; connect-src 'self'; img-src 'self' data:; style-src 'self' 'unsafe-inline'; script-src ",
    );
    r.append("'self'");
    if hashes.len() > 0 {
        r.append(" ");
        proof {
            assert(r@ =~= policy_head() + "'self' "@ + Seq::<char>::empty());
        }
        let mut i: usize = 0;
        while i < hashes.len()
            invariant
                hs == hashes@.map_values(|s: String| s@),
                0 <= i <= hashes@.len(),
                hashes@.len() > 0,
                r@ == policy_head() + "'self' "@ + (if i == 0 {
                    Seq::empty()
                } else {
                    joined(hs.take(i as int))
                }),
            decreases hashes@.len() - i,
        {
            let ghost before = r@;
            if i > 0 {
                r.append(" ");
            }
            r.append(hashes[i].as_str());
            proof {
                assert(hs.take(i + 1).drop_last() =~= hs.take(i as int));
                assert(hs.take(i + 1).last() == hs[i as int]);
                if i == 0 {
                    assert(hs.take(1).len() == 1);
                    assert(r@ =~= policy_head() + "'self' "@ + joined(hs.take(1)));
                } else {
                    assert(r@ =~= policy_head() + "'self' "@ + joined(hs.take(i + 1)));
                }
            }
            i = i + 1;
        }
        proof {
            assert(hs.take(hashes@.len() as int) =~= hs);
        }
    }
    r.append(
        "; object-src 'none'; base-uri 'none'; frame-ancestors 'none'; form-action 'none'",
    );
    proof {
        reveal_strlit("'self'");
        reveal_strlit("'self' ");
        reveal_strlit(" ");
        if hashes@.len() == 0 {
            assert(r@ =~= viewer_policy(mime_type@, body@));
        } else {
            assert(r@ =~= viewer_policy(mime_type@, body@));
        }
    }
    r
}


/// How the LAN server answers a request, before it looks at the shares.
pub enum LanRoute {
    /// Only `GET` is served.
    MethodNotAllowed,
    /// The viewer page of the share with this identifier, if it is active.
    SharePage(String),
    /// A share link whose identifier cannot be valid.
    ShareNotFound,
    /// The published snapshot of the share with this identifier, if it is
    /// active.
    ShareApi(String),
    /// A file of the viewer.
    Asset(String),
    /// Anything else.
    NotFound,
}

/// `s` without all of its leading `/`s.
pub open spec fn without_leading_slashes(s: Seq<char>) -> Seq<char>
    decreases s.len(),
{
    if s.len() > 0 && s[0] == '/' {
        without_leading_slashes(s.drop_first())
    } else {
        s
    }
}

/// How the LAN server answers a request for `path`: only `GET`; a share
/// page by a valid identifier; the snapshot of a share; a file of the
/// viewer that may be served; else nothing.
pub open spec fn lan_route_of(is_get: bool, path: Seq<char>) -> (u8, Seq<char>) {
    if !is_get {
        (0, Seq::empty())
    } else if starts_with(path, "/share/"@) {
        let id = path.subrange(7, path.len() as int);
        if share_id_valid(id) {
            (1, id)
        } else {
            (2, Seq::empty())
        }
    } else if starts_with(path, "/api/shares/"@) {
        (3, path.subrange(12, path.len() as int))
    } else if asset_allowed(without_leading_slashes(path)) {
        (4, without_leading_slashes(path))
    } else {
        (5, Seq::empty())
    }
}

/// The kind and text of a route.
pub open spec fn route_view(r: LanRoute) -> (u8, Seq<char>) {
    match r {
        LanRoute::MethodNotAllowed => (0, Seq::empty()),
        LanRoute::SharePage(id) => (1, id@),
        LanRoute::ShareNotFound => (2, Seq::empty()),
        LanRoute::ShareApi(id) => (3, id@),
        LanRoute::Asset(p) => (4, p@),
        LanRoute::NotFound => (5, Seq::empty()),
    }
}

/// `s` without all of its leading `/`s.
pub fn trim_leading_slashes(s: &str) -> (r: &str)
    ensures
        r@ == without_leading_slashes(s@),
{
    let v = chars_of(s);
    let n = v.len();
    let mut i: usize = 0;
    proof {
        assert(s@.subrange(0, n as int) =~= s@);
    }
    while i < n && v[i] == '/'
        invariant
            v@ == s@,
            n == v@.len(),
            i <= n,
            without_leading_slashes(s@) == without_leading_slashes(s@.subrange(i as int, n as int)),
        decreases n - i,
    {
        proof {
            assert(s@.subrange(i as int, n as int).drop_first() =~= s@.subrange(i + 1, n as int));
        }
        i = i + 1;
    }
    s.substring_char(i, n)
}

/// How the LAN server answers a request for `path`: see [`lan_route_of`].
pub fn lan_route(is_get: bool, path: &str) -> (r: LanRoute)
    ensures
        route_view(r) == lan_route_of(is_get, path@),
{
    if !is_get {
        return LanRoute::MethodNotAllowed;
    }
    proof {
        reveal_strlit("/share/");
        reveal_strlit("/api/shares/");
    }
    match str_strip_prefix(path, "/share/") {
        Some(id) => {
            if valid_share_id(id) {
                return LanRoute::SharePage(String::from_str(id));
            } else {
                return LanRoute::ShareNotFound;
            }
        },
        None => {},
    }
    match str_strip_prefix(path, "/api/shares/") {
        Some(id) => {
            return LanRoute::ShareApi(String::from_str(id));
        },
        None => {},
    }
    let asset = trim_leading_slashes(path);
    if is_public_viewer_asset(asset) {
        LanRoute::Asset(String::from_str(asset))
    } else {
        LanRoute::NotFound
    }
}

/// The file that a viewer request names: the target without its leading
/// `/`s and its query.
pub open spec fn asset_key(target: Seq<char>) -> Seq<char> {
    before_char(without_leading_slashes(target), '?')
}

/// The file that a viewer request names: see [`asset_key`].
pub fn asset_target(target: &str) -> (r: &str)
    ensures
        r@ == asset_key(target@),
{
    let t = trim_leading_slashes(target);
    let v = chars_of(t);
    let end = crate::text::find_char_in(v.as_slice(), 0, v.len(), '?');
    proof {
        assert(t@.subrange(0, t@.len() as int) =~= t@);
    }
    t.substring_char(0, end)
}

/// A status, content type and body that the LAN server sends as they are.
pub struct FixedResponse {
    pub status: u16,
    pub content_type: &'static str,
    pub body: &'static str,
}

/// The answer to a request that is refused or names nothing that exists.
pub fn refusal(route: &LanRoute) -> (r: Option<FixedResponse>)
    ensures
        match route {
            LanRoute::MethodNotAllowed => r matches Some(f) && f.status == 405 && f.content_type@
                == "text/plain; charset=utf-8"@ && f.body@ == "Method not allowed"@,
            LanRoute::ShareNotFound => r matches Some(f) && f.status == 404 && f.content_type@
                == "text/plain; charset=utf-8"@ && f.body@ == "Share not found"@,
            LanRoute::NotFound => r matches Some(f) && f.status == 404 && f.content_type@
                == "text/plain; charset=utf-8"@ && f.body@ == "Not found"@,
            _ => r is None,
        },
{
    match route {
        LanRoute::MethodNotAllowed => Some(
            FixedResponse {
                status: 405,
                content_type: "text/plain; charset=utf-8",
                body: "Method not allowed",
            },
        ),
        LanRoute::ShareNotFound => Some(
            FixedResponse { status: 404, content_type: "text/plain; charset=utf-8", body: "Share not found" },
        ),
        LanRoute::NotFound => Some(
            FixedResponse { status: 404, content_type: "text/plain; charset=utf-8", body: "Not found" },
        ),
        _ => None,
    }
}

/// The answer to a share or a file that is not there.
pub fn missing_share_response(api: bool) -> (r: FixedResponse)
    ensures
        r.status == 404,
        api ==> r.content_type@ == "application/json; charset=utf-8"@ && r.body@
            == "{\"error\":\"Share not found or expired\"}"@,
        !api ==> r.content_type@ == "text/plain; charset=utf-8"@ && r.body@ == "Share not found"@,
{
    if api {
        FixedResponse {
            status: 404,
            content_type: "application/json; charset=utf-8",
            body: "{\"error\":\"Share not found or expired\"}",
        }
    } else {
        FixedResponse { status: 404, content_type: "text/plain; charset=utf-8", body: "Share not found" }
    }
}

/// The answer to a LAN share that was published.
pub struct LanShareResponse {
    pub id: String,
    pub url: String,
    pub updated_at: String,
    pub expires_at: Option<String>,
}

/// The address of a share's viewer page on this computer.
pub fn share_url(host: &str, port: u16, share_id: &str) -> (r: String)
    ensures
        r@ == "http://"@ + host@ + ":"@ + crate::text::nat_decimal(port as nat) + "/share/"@ + share_id@,
{
    let mut r = String::from_str("http://");
    r.append(host);
    r.append(":");
    crate::text::push_u128_decimal(&mut r, port as u128);
    r.append("/share/");
    r.append(share_id);
    r
}

/// The LAN address to share from: it must not be the loopback address and
/// must be reachable only from the local network; a preferred port of 0 is
/// refused.
pub fn check_share_address(ip: &LanIp, loopback: bool, preferred_port: Option<u16>) -> (r: Result<(), String>)
    ensures
        loopback ==> (r matches Err(e) && e@ == "No LAN network connection was found"@),
        !loopback && !lan_only(*ip) ==> (r matches Err(e) && e@
            == "LAN sharing requires a private local-network address"@),
        !loopback && lan_only(*ip) && preferred_port == Some(0u16) ==> (r matches Err(e) && e@
            == "Invalid preferred LAN sharing port"@),
        !loopback && lan_only(*ip) && preferred_port != Some(0u16) ==> r is Ok,
{
    if loopback {
        return Err(String::from_str("No LAN network connection was found"));
    }
    if !is_private_lan_address(ip) {
        return Err(String::from_str("LAN sharing requires a private local-network address"));
    }
    if preferred_port == Some(0u16) {
        return Err(String::from_str("Invalid preferred LAN sharing port"));
    }
    Ok(())
}


/// An RFC 3339 date and time as chrono's `DateTime::parse_from_rfc3339`
/// reads it: the instant in seconds and nanoseconds since the Unix epoch,
/// and its RFC 3339 rendering in UTC, or `None` for text that is not such a
/// date and time.
pub uninterp spec fn rfc3339_instant(text: Seq<char>) -> Option<(i64, u32, Seq<char>)>;

/// chrono's `DateTime::parse_from_rfc3339`, with the instant taken to UTC by
/// `with_timezone`, `timestamp` and `timestamp_subsec_nanos`, and rendered
/// by `to_rfc3339`. Its result is named [`rfc3339_instant`].
#[verifier::external_body]
fn parse_rfc3339(text: &str) -> (r: Option<(i64, u32, String)>)
    ensures
        match r {
            Some((secs, nanos, rendered)) => rfc3339_instant(text@) == Some((secs, nanos, rendered@)),
            None => rfc3339_instant(text@) is None,
        },
{
    match DateTime::parse_from_rfc3339(text) {
        Ok(parsed) => {
            let utc = parsed.with_timezone(&Utc);
            Some((utc.timestamp(), utc.timestamp_subsec_nanos(), utc.to_rfc3339()))
        },
        Err(_) => None,
    }
}

/// When a share stops being served: no expiry, or an RFC 3339 date and
/// time that must lie after `now`.
pub fn parse_expiration(expires_at: Option<String>, now: (i64, u32)) -> (r: Result<
    Option<(i64, u32, String)>,
    String,
>)
    ensures
        expires_at is None ==> r matches Ok(None),
        expires_at matches Some(text) ==> match rfc3339_instant(text@) {
            None => r matches Err(e) && e@ == "Invalid expiration date"@,
            Some(t) => if not_after((t.0, t.1), now) {
                r matches Err(e) && e@ == "Expiration must be in the future"@
            } else {
                r matches Ok(Some(p)) && p.0 == t.0 && p.1 == t.1 && p.2@ == t.2
            },
        },
{
    match expires_at {
        None => Ok(None),
        Some(text) => match parse_rfc3339(text.as_str()) {
            None => Err(String::from_str("Invalid expiration date")),
            Some((secs, nanos, rendered)) => {
                if secs < now.0 || (secs == now.0 && nanos <= now.1) {
                    Err(String::from_str("Expiration must be in the future"))
                } else {
                    Ok(Some((secs, nanos, rendered)))
                }
            },
        },
    }
}

/// What the checks on a published snapshot read of it: whether it is a
/// JSON object, its `schema_version` as a `u64`, its `title` as a string,
/// the number of tasks of each of its `columns` (when `columns` is an array;
/// a column without a `tasks` array counts none), and the length of its
/// JSON encoding or the encoder's error.
pub struct SnapshotShape {
    pub is_object: bool,
    pub schema_version: Option<u64>,
    pub title: Option<String>,
    pub column_task_counts: Option<Vec<usize>>,
    pub encoded_len: Result<usize, String>,
}

/// The sum of `counts`.
pub open spec fn total(counts: Seq<usize>) -> int
    decreases counts.len(),
{
    if counts.len() == 0 {
        0
    } else {
        total(counts.drop_last()) + counts.last()
    }
}

/// The checks that a snapshot must pass to be published, in order, with
/// the error of the first that fails: an object of schema 1, with a title
/// that is not blank and has at most 120 characters, between 1 and 50
/// columns, at most 2000 tasks, and at most 512 KiB of JSON.
pub open spec fn snapshot_check(shape: SnapshotShape) -> Result<(), Seq<char>> {
    let title = match shape.title {
        Some(t) => t@,
        None => Seq::empty(),
    };
    if !shape.is_object {
        Err("Invalid share snapshot"@)
    } else if shape.schema_version != Some(1u64) {
        Err("Unsupported share schema"@)
    } else if crate::text::trim(title).len() == 0 || title.len() > 120 {
        Err("Invalid shared board name"@)
    } else if shape.column_task_counts is None {
        Err("Invalid shared columns"@)
    } else if shape.column_task_counts.unwrap()@.len() == 0 || shape.column_task_counts.unwrap()@.len() > 50 {
        Err("A share must contain between 1 and 50 columns"@)
    } else if total(shape.column_task_counts.unwrap()@) > 2000 {
        Err("A share can contain at most 2000 tasks"@)
    } else {
        match shape.encoded_len {
            Err(e) => Err(e@),
            Ok(n) => if n > 524288 {
                Err("Share payload is too large"@)
            } else {
                Ok(())
            },
        }
    }
}

/// Whether a snapshot may be published: see [`snapshot_check`].
pub fn validate_snapshot(shape: &SnapshotShape) -> (r: Result<(), String>)
    ensures
        crate::archive::unit_result_view(r) == snapshot_check(*shape),
{
    if !shape.is_object {
        return Err(String::from_str("Invalid share snapshot"));
    }
    if shape.schema_version != Some(1u64) {
        return Err(String::from_str("Unsupported share schema"));
    }
    let title: &str = match &shape.title {
        Some(t) => t.as_str(),
        None => "",
    };
    proof {
        reveal_strlit("");
    }
    if crate::text::trim_str(title).unicode_len() == 0 || title.unicode_len() > 120 {
        return Err(String::from_str("Invalid shared board name"));
    }
    let counts = match &shape.column_task_counts {
        Some(c) => c,
        None => return Err(String::from_str("Invalid shared columns")),
    };
    if counts.len() == 0 || counts.len() > 50 {
        return Err(String::from_str("A share must contain between 1 and 50 columns"));
    }
    let ghost title_view = if shape.title is Some {
        shape.title.unwrap()@
    } else {
        Seq::<char>::empty()
    };
    let mut sum: usize = 0;
    let mut i: usize = 0;
    while i < counts.len()
        invariant
            shape.is_object,
            shape.schema_version == Some(1u64),
            title_view == (if shape.title is Some {
                shape.title.unwrap()@
            } else {
                Seq::<char>::empty()
            }),
            !(crate::text::trim(title_view).len() == 0 || title_view.len() > 120),
            shape.column_task_counts == Some(*counts),
            counts@.len() > 0,
            i <= counts@.len(),
            counts@.len() <= 50,
            sum == total(counts@.take(i as int)),
            sum <= 2000,
        decreases counts@.len() - i,
    {
        proof {
            assert(counts@.take(i + 1).drop_last() =~= counts@.take(i as int));
        }
        if counts[i] > 2000 - sum {
            proof {
                lemma_total_prefix(counts@, i + 1);
            }
            return Err(String::from_str("A share can contain at most 2000 tasks"));
        }
        sum = sum + counts[i];
        i = i + 1;
    }
    proof {
        assert(counts@.take(counts@.len() as int) =~= counts@);
    }
    match &shape.encoded_len {
        Err(e) => Err(e.clone()),
        Ok(n) => if *n > 524288 {
            Err(String::from_str("Share payload is too large"))
        } else {
            Ok(())
        },
    }
}

proof fn lemma_total_prefix(counts: Seq<usize>, k: int)
    requires
        0 <= k <= counts.len(),
    ensures
        total(counts.take(k)) <= total(counts),
    decreases counts.len() - k,
{
    if k < counts.len() {
        lemma_total_prefix(counts, k + 1);
        assert(counts.take(k + 1).drop_last() =~= counts.take(k));
    } else {
        assert(counts.take(k) =~= counts);
    }
}

} // verus!
