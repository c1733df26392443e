//! Restoring a node from an archive: what is refused, and what comes back.

use vstd::prelude::*;
use crate::archive::{decode_v2, decoded, magic_version, max_archive, same_archive, version_of, Archive, ArchiveView, Reader};
use crate::archive_check::{has_credited_prefix, is_credited};
use crate::archive_frame::{SealedFrame, SealedView, SessionFrame, SessionView};
use crate::sealed_parts::{forward_grant_context, grant_context};
use crate::bytes::{copy_bytes, same_id, same_id16};
use crate::channel_route::{open_for, opened_for};
use crate::codec::{Codec, ForwardGrant, GrantView, NodeKeys, Protocol};
use crate::error::Error;
use crate::model::{views, AliasContact, Cell, CellView, RelayProvision, RelayProvisionView, RelayTarget};
use crate::node_state::{ApplicationInbox, DirectDelivery, DirectSessionState, NodeState, PayloadUsage, PeerSession};
use crate::owner_aliases::{live_error, Record, RecordView, RestoreClock};
use crate::record::{bytes_view, maybe_view};
use crate::revive::{countable, later, left_of, Live};
use crate::table::{among, Table};
use crate::time::{ms_up, Instant};

verus! {

/// Whether this node's applications are owned already.
pub open spec fn owned(inbox: ApplicationInbox) -> bool {
    inbox.machine_owned || inbox.central_ownership is Some || inbox.local_routing_policy
}

pub fn is_owned(inbox: &ApplicationInbox) -> (r: bool)
    ensures
        r == owned(*inbox),
{
    inbox.machine_owned || inbox.central_ownership.is_some() || inbox.local_routing_policy
}

/// Why a running node does not take an archive.
pub open spec fn live_refusal(st: NodeState, buf: Seq<u8>) -> Option<Error> {
    if owned(st.application_inbox) {
        Some(Error::OwnershipInitialized)
    } else if (magic_version(buf) matches Some(version) && version >= 15) {
        Some(Error::ConstructorRequired)
    } else {
        None
    }
}

/// Whether a running node takes an archive: not once its applications are owned,
/// and not where aliases of its own would come with it.
pub fn may_restore_live(st: &NodeState, buf: &[u8]) -> (r: Result<(), Error>)
    ensures
        r == (match live_refusal(*st, buf@) {
            Some(e) => Err::<(), Error>(e),
            None => Ok::<(), Error>(()),
        }),
{
    if is_owned(&st.application_inbox) {
        return Err(Error::OwnershipInitialized);
    }
    match version_of(buf) {
        Some(version) => {
            if version >= 15 {
                return Err(Error::ConstructorRequired);
            }
        },
        None => {},
    }
    Ok(())
}

/// Why a node that starts does not take an archive, before it is read.
pub open spec fn start_refusal(st: NodeState, buf: Seq<u8>) -> Option<Error> {
    if buf.len() > max_archive() {
        Some(Error::ExportTooLarge)
    } else if (magic_version(buf) matches Some(version) && version >= 20) && !st.gc2_sessions {
        Some(Error::CreditSelectionRequired)
    } else if owned(st.application_inbox) {
        Some(Error::OwnershipInitialized)
    } else {
        None
    }
}

/// Whether every session of an archive is credited.
pub open spec fn all_credited(s: Seq<SessionView>) -> bool {
    forall|i: int| 0 <= i < s.len() ==> is_credited((#[trigger] s[i]).sealed)
}

fn are_all_credited(sessions: &Vec<SessionFrame>) -> (r: bool)
    ensures
        r == all_credited(views(sessions@)),
{
    let ghost v = views(sessions@);
    let mut i: usize = 0;
    while i < sessions.len()
        invariant
            i <= sessions.len(),
            v == views(sessions@),
            forall|j: int| 0 <= j < i ==> is_credited((#[trigger] v[j]).sealed),
        decreases sessions.len() - i,
    {
        assert(v[i as int] == sessions@[i as int]@);
        if !has_credited_prefix(sessions[i].sealed.as_slice()) {
            return false;
        }
        i += 1;
    }
    true
}

/// What the archive of a starting node holds, or why it is refused.
pub open spec fn admitted(st: NodeState, buf: Seq<u8>, d: Reader) -> Result<ArchiveView, Error> {
    match start_refusal(st, buf) {
        Some(e) => Err(e),
        None => match decoded(buf, d) {
            Err(e) => Err(e),
            Ok(a) => if st.gc2_sessions && !all_credited(a.core.sessions) {
                Err(Error::MigrationRequired)
            } else {
                Ok(a)
            },
        },
    }
}

/// Whether an archive is of the first version, which is read in another way.
pub fn is_first_version(buf: &[u8]) -> (r: bool)
    ensures
        r == (magic_version(buf@) == Some(1u8)),
{
    match version_of(buf) {
        Some(version) => version == 1,
        None => false,
    }
}

/// Checks a starting node against an archive, before it is read.
pub fn may_start_from(st: &NodeState, buf: &[u8]) -> (r: Result<(), Error>)
    ensures
        r == (match start_refusal(*st, buf@) {
            Some(e) => Err::<(), Error>(e),
            None => Ok::<(), Error>(()),
        }),
{
    if buf.len() > 0x1000_0000 {
        return Err(Error::ExportTooLarge);
    }
    let credited = match version_of(buf) {
        Some(version) => version >= 20,
        None => false,
    };
    if credited && !st.gc2_sessions {
        return Err(Error::CreditSelectionRequired);
    }
    if is_owned(&st.application_inbox) {
        return Err(Error::OwnershipInitialized);
    }
    Ok(())
}

/// Reads the archive of a starting node. A node started for credited sessions
/// takes no others.
pub fn open_archive(st: &NodeState, buf: &[u8], keys: &NodeKeys, codec: &Codec, p: &Protocol) -> (r: Result<Archive, Error>)
    ensures
        same_archive(r, admitted(*st, buf@, Reader { keys, codec, p })),
{
    match may_start_from(st, buf) {
        Ok(()) => {},
        Err(e) => {
            return Err(e);
        },
    }
    let archive = match decode_v2(buf, keys, codec, p) {
        Ok(archive) => archive,
        Err(e) => {
            return Err(e);
        },
    };
    if st.gc2_sessions && !are_all_credited(&archive.core.sessions) {
        return Err(Error::MigrationRequired);
    }
    Ok(archive)
}

/// A session that the host opened: its state as the node now seals it, and what
/// its window says.
#[derive(Debug)]
pub struct OpenedSession {
    pub sealed: Vec<u8>,
    pub tag: Option<[u8; 16]>,
    pub usage: PayloadUsage,
    pub generation: u64,
    pub volatile: bool,
}

/// What the revival of sessions goes by.
#[derive(Clone, Copy)]
pub struct Sessions<'a> {
    /// The sessions that the host could open, by their archived form.
    pub opened: &'a Table<Vec<u8>, OpenedSession>,
    pub lapsed: &'a Vec<Vec<u8>>,
}

/// What the revival of session states goes by.
#[derive(Clone, Copy)]
pub struct States<'a> {
    pub lapsed: &'a Vec<Vec<u8>>,
    pub now: Instant,
    pub elapsed_ms: u64,
}

impl<'a> Live<Sessions<'a>> for SessionFrame {
    type K = Vec<u8>;

    type T = PeerSession;

    open spec fn kept(v: SessionView, w: Sessions<'a>) -> bool {
        !views(w.lapsed@).contains(v.peer)
    }

    open spec fn ready(v: SessionView, w: Sessions<'a>) -> bool {
        Self::kept(v, w) ==> w.opened.has(v.sealed)
    }

    open spec fn key(v: SessionView) -> Seq<u8> {
        v.peer
    }

    open spec fn stands_for(v: SessionView, w: Sessions<'a>, t: PeerSession) -> bool {
        let o = w.opened.at(v.sealed);
        t.sealed@ == o.sealed@ && t.tag == o.tag && t.usage == o.usage
    }

    fn revive(&self, w: Sessions<'a>) -> (r: Option<(Vec<u8>, PeerSession)>) {
        if among(w.lapsed, &self.peer) {
            return None;
        }
        match w.opened.get(&self.sealed) {
            Some(o) => Some(
                (
                    copy_bytes(self.peer.as_slice()),
                    PeerSession { sealed: copy_bytes(o.sealed.as_slice()), tag: o.tag, usage: o.usage },
                ),
            ),
            None => None,
        }
    }
}

impl<'a> Live<States<'a>> for SessionFrame {
    type K = Vec<u8>;

    type T = DirectSessionState;

    open spec fn kept(v: SessionView, w: States<'a>) -> bool {
        !views(w.lapsed@).contains(v.peer)
    }

    open spec fn ready(v: SessionView, w: States<'a>) -> bool {
        countable(w.now)
    }

    open spec fn key(v: SessionView) -> Seq<u8> {
        v.peer
    }

    open spec fn stands_for(v: SessionView, w: States<'a>, t: DirectSessionState) -> bool {
        t == match v.unconfirmed {
            Some(ms) => DirectSessionState::InitiatedUnconfirmed { expires: later(w.now, left_of(ms, w.elapsed_ms)) },
            None => DirectSessionState::Established,
        }
    }

    fn revive(&self, w: States<'a>) -> (r: Option<(Vec<u8>, DirectSessionState)>) {
        if among(w.lapsed, &self.peer) {
            return None;
        }
        let state = match self.unconfirmed {
            Some(ms) => {
                let left: u64 = if ms > w.elapsed_ms {
                    ms - w.elapsed_ms
                } else {
                    0
                };
                DirectSessionState::InitiatedUnconfirmed { expires: crate::revive::after_ms(w.now, left) }
            },
            None => DirectSessionState::Established,
        };
        Some((copy_bytes(self.peer.as_slice()), state))
    }
}

/// The tags of the first `n` sessions that come back.
pub open spec fn tags_of(s: Seq<SessionView>, n: nat, w: Sessions) -> Seq<[u8; 16]>
    decreases n,
{
    if n == 0 {
        Seq::empty()
    } else {
        let before = tags_of(s, (n - 1) as nat, w);
        let v = s[n - 1];
        if <SessionFrame as Live<Sessions>>::kept(v, w) && w.opened.has(v.sealed) && w.opened.at(v.sealed).tag is Some {
            before.push(w.opened.at(v.sealed).tag->0)
        } else {
            before
        }
    }
}

/// Why one of the first `n` sessions cannot come back: it did not open, or its
/// tag is taken.
pub open spec fn sessions_refusal(s: Seq<SessionView>, n: nat, w: Sessions) -> Option<Error>
    decreases n,
{
    if n == 0 {
        None
    } else {
        let before = sessions_refusal(s, (n - 1) as nat, w);
        let v = s[n - 1];
        if before is Some || !<SessionFrame as Live<Sessions>>::kept(v, w) {
            before
        } else if !w.opened.has(v.sealed) {
            Some(Error::SessionRefused)
        } else if (w.opened.at(v.sealed).tag matches Some(tag) && tags_of(s, (n - 1) as nat, w).contains(tag)) {
            Some(Error::DuplicateSessionTag)
        } else {
            None
        }
    }
}

proof fn lemma_refusal_stays(s: Seq<SessionView>, m: nat, n: nat, w: Sessions)
    requires
        m <= n,
        sessions_refusal(s, m, w) is Some,
    ensures
        sessions_refusal(s, n, w) == sessions_refusal(s, m, w),
    decreases n,
{
    if m < n {
        lemma_refusal_stays(s, m, (n - 1) as nat, w);
    }
}

fn has_tag(tags: &Vec<[u8; 16]>, tag: &[u8; 16]) -> (r: bool)
    ensures
        r == tags@.contains(*tag),
{
    let mut i: usize = 0;
    while i < tags.len()
        invariant
            i <= tags.len(),
            forall|j: int| 0 <= j < i ==> tags@[j] != *tag,
        decreases tags.len() - i,
    {
        if same_id16(&tags[i], tag) {
            return true;
        }
        i += 1;
    }
    false
}

/// Checks that the sessions of an archive can come back.
pub fn check_sessions(sessions: &Vec<SessionFrame>, w: Sessions) -> (r: Result<(), Error>)
    ensures
        r == (match sessions_refusal(views(sessions@), sessions@.len(), w) {
            Some(e) => Err::<(), Error>(e),
            None => Ok::<(), Error>(()),
        }),
{
    let ghost v = views(sessions@);
    let mut tags: Vec<[u8; 16]> = Vec::new();
    let mut i: usize = 0;
    while i < sessions.len()
        invariant
            i <= sessions.len(),
            v == views(sessions@),
            tags@ == tags_of(v, i as nat, w),
            sessions_refusal(v, i as nat, w) is None,
        decreases sessions.len() - i,
    {
        assert(v[i as int] == sessions@[i as int]@);
        if !among(w.lapsed, &sessions[i].peer) {
            match w.opened.get(&sessions[i].sealed) {
                None => {
                    proof {
                        lemma_refusal_stays(v, (i + 1) as nat, v.len(), w);
                    }
                    return Err(Error::SessionRefused);
                },
                Some(o) => {
                    match &o.tag {
                        Some(tag) => {
                            if has_tag(&tags, tag) {
                                proof {
                                    lemma_refusal_stays(v, (i + 1) as nat, v.len(), w);
                                }
                                return Err(Error::DuplicateSessionTag);
                            }
                            tags.push(*tag);
                        },
                        None => {},
                    }
                },
            }
        }
        i += 1;
    }
    Ok(())
}

/// Whether a session that comes back has moved on from where its receipts could
/// be worked out anew.
pub open spec fn outgrown(v: SessionView, w: Sessions) -> bool {
    let o = w.opened.at(v.sealed);
    <SessionFrame as Live<Sessions>>::kept(v, w) && o.tag is Some && (o.generation != 1 || o.volatile)
}

/// The receipts of a restored node: those of the archive, or those that the
/// sessions give anew.
pub open spec fn receipts_of(receipts: Option<Seq<u8>>, s: Seq<SessionView>, migrated: Seq<u8>, w: Sessions) -> Result<Seq<u8>, Error> {
    match receipts {
        Some(receipts) => Ok(receipts),
        None => if exists|i: int| 0 <= i < s.len() && outgrown(#[trigger] s[i], w) {
            Err(Error::ReceiptArchiveRequired)
        } else {
            Ok(migrated)
        },
    }
}

/// Settles the receipts. `migrated` is the ledger that the host works out from
/// the windows of the sessions.
pub fn settle_receipts(receipts: &Option<Vec<u8>>, sessions: &Vec<SessionFrame>, migrated: &Vec<u8>, w: Sessions) -> (r: Result<Vec<u8>, Error>)
    requires
        crate::revive::all_ready::<Sessions, SessionFrame>(views(sessions@), w),
    ensures
        crate::sealed_parts::same_bytes_answer(
            r,
            receipts_of(crate::record::bytes_view(*receipts), views(sessions@), migrated@, w),
        ),
{
    match receipts {
        Some(receipts) => {
            return Ok(copy_bytes(receipts.as_slice()));
        },
        None => {},
    }
    let ghost v = views(sessions@);
    let mut i: usize = 0;
    while i < sessions.len()
        invariant
            i <= sessions.len(),
            v == views(sessions@),
            crate::revive::all_ready::<Sessions, SessionFrame>(v, w),
            forall|j: int| 0 <= j < i ==> !outgrown(#[trigger] v[j], w),
            *receipts is None,
        decreases sessions.len() - i,
    {
        assert(v[i as int] == sessions@[i as int]@);
        if !among(w.lapsed, &sessions[i].peer) {
            match w.opened.get(&sessions[i].sealed) {
                Some(o) => {
                    if o.tag.is_some() && (o.generation != 1 || o.volatile) {
                        assert(outgrown(v[i as int], w));
                        return Err(Error::ReceiptArchiveRequired);
                    }
                },
                None => {},
            }
        }
        i += 1;
    }
    Ok(copy_bytes(migrated.as_slice()))
}

/// What the grants of an archive are opened with, and which still count.
#[derive(Clone, Copy)]
pub struct Grants<'a> {
    pub keys: &'a NodeKeys,
    pub codec: &'a Codec,
    pub now_unix: u64,
    /// The relays that this node may forward to.
    pub permitted: &'a Vec<RelayTarget>,
}

pub open spec fn opened_grant(sealed: Seq<u8>, w: Grants) -> Result<ForwardGrant, Error> {
    match opened_for(w.keys.wrapping_key@, w.codec.aad(grant_context(w.keys.identity_public@)), sealed) {
        Err(e) => Err(e),
        Ok(plain) => match w.codec.grants.lookup(plain) {
            Some(grant) => Ok(grant),
            None => Err(Error::Malformed),
        },
    }
}

/// Whether a grant has time left and a target that may be forwarded to.
pub open spec fn counts(grant: ForwardGrant, w: Grants) -> bool {
    grant.expires_at > w.now_unix && w.permitted@.contains(grant.target)
}

/// The grants among the first `n` that still count, or the first refusal.
pub open spec fn grants_of(s: Seq<SealedView>, n: nat, w: Grants) -> Result<Seq<GrantView>, Error>
    decreases n,
{
    if n == 0 {
        if w.codec.aad(grant_context(w.keys.identity_public@)) is None {
            Err(Error::ContextRefused)
        } else {
            Ok(Seq::empty())
        }
    } else {
        match grants_of(s, (n - 1) as nat, w) {
            Err(e) => Err(e),
            Ok(before) => match opened_grant(s[n - 1].sealed, w) {
                Err(e) => Err(e),
                Ok(grant) => if counts(grant, w) {
                    Ok(before.push(grant@))
                } else {
                    Ok(before)
                },
            },
        }
    }
}

proof fn lemma_grants_stop(s: Seq<SealedView>, m: nat, n: nat, w: Grants)
    requires
        m <= n,
        grants_of(s, m, w) is Err,
    ensures
        grants_of(s, n, w) == grants_of(s, m, w),
    decreases n,
{
    if m < n {
        lemma_grants_stop(s, m, (n - 1) as nat, w);
    }
}

fn is_permitted(permitted: &Vec<RelayTarget>, target: &RelayTarget) -> (r: bool)
    ensures
        r == permitted@.contains(*target),
{
    let mut i: usize = 0;
    while i < permitted.len()
        invariant
            i <= permitted.len(),
            forall|j: int| 0 <= j < i ==> permitted@[j] != *target,
        decreases permitted.len() - i,
    {
        if permitted[i].same(target) {
            return true;
        }
        i += 1;
    }
    false
}

/// Opens the grants of an archive and keeps those that still count.
pub fn open_grants(sealed: &Vec<SealedFrame>, w: Grants) -> (r: Result<Vec<ForwardGrant>, Error>)
    ensures
        match r {
            Ok(grants) => grants_of(views(sealed@), sealed@.len(), w) == Ok::<Seq<GrantView>, Error>(views(grants@)),
            Err(e) => grants_of(views(sealed@), sealed@.len(), w) == Err::<Seq<GrantView>, Error>(e),
        },
{
    let ghost v = views(sealed@);
    let context = forward_grant_context(w.keys);
    if w.codec.context_aad(&context).is_err() {
        proof {
            lemma_grants_stop(v, 0, v.len(), w);
        }
        return Err(Error::ContextRefused);
    }
    let mut out: Vec<ForwardGrant> = Vec::new();
    let mut i: usize = 0;
    assert(views(out@) =~= Seq::<GrantView>::empty());
    while i < sealed.len()
        invariant
            i <= sealed.len(),
            v == views(sealed@),
            context@ == grant_context(w.keys.identity_public@),
            grants_of(v, i as nat, w) == Ok::<Seq<GrantView>, Error>(views(out@)),
        decreases sealed.len() - i,
    {
        assert(v[i as int] == sealed@[i as int]@);
        let plain = match open_for(&w.keys.wrapping_key, &context, sealed[i].sealed.as_slice(), w.codec) {
            Ok(plain) => plain,
            Err(e) => {
                proof {
                    lemma_grants_stop(v, (i + 1) as nat, v.len(), w);
                }
                return Err(e);
            },
        };
        match w.codec.grants.get(&plain) {
            Some(grant) => {
                if grant.expires_at > w.now_unix && is_permitted(w.permitted, &grant.target) {
                    let ghost before = views(out@);
                    let copy = grant.clone();
                    out.push(copy);
                    assert(views(out@) =~= before.push(grant@));
                }
            },
            None => {
                proof {
                    lemma_grants_stop(v, (i + 1) as nat, v.len(), w);
                }
                return Err(Error::Malformed);
            },
        }
        i += 1;
    }
    Ok(out)
}

/// The place of a relay's grant, or the end where it has none.
pub open spec fn grant_place(s: Seq<GrantView>, id: [u8; 32]) -> nat
    decreases s.len(),
{
    if s.len() == 0 {
        0
    } else if grant_place(s.drop_last(), id) < s.len() - 1 {
        grant_place(s.drop_last(), id)
    } else if s.last().target.relay_service_id == id {
        (s.len() - 1) as nat
    } else {
        s.len()
    }
}

/// Grants with one more: it takes the place of an earlier one of the same relay.
pub open spec fn with_grant(s: Seq<GrantView>, g: GrantView) -> Seq<GrantView> {
    let at = grant_place(s, g.target.relay_service_id);
    if at < s.len() {
        s.update(at as int, g)
    } else {
        s.push(g)
    }
}

/// Grants with the first `n` of others, one after the other.
pub open spec fn with_grants(s: Seq<GrantView>, gs: Seq<GrantView>, n: nat) -> Seq<GrantView>
    decreases n,
{
    if n == 0 {
        s
    } else {
        with_grant(with_grants(s, gs, (n - 1) as nat), gs[n - 1])
    }
}

proof fn lemma_grant_place(s: Seq<GrantView>, id: [u8; 32])
    ensures
        grant_place(s, id) <= s.len(),
        grant_place(s, id) < s.len() ==> s[grant_place(s, id) as int].target.relay_service_id == id,
        grant_place(s, id) == s.len() ==> forall|i: int| 0 <= i < s.len() ==> (#[trigger] s[i]).target.relay_service_id != id,
    decreases s.len(),
{
    if s.len() > 0 {
        lemma_grant_place(s.drop_last(), id);
        let at = grant_place(s.drop_last(), id);
        if at < s.len() - 1 {
            assert(s[at as int] == s.drop_last()[at as int]);
        } else if s.last().target.relay_service_id != id {
            assert forall|i: int| 0 <= i < s.len() implies (#[trigger] s[i]).target.relay_service_id != id by {
                if i < s.len() - 1 {
                    assert(s[i] == s.drop_last()[i]);
                }
            }
        }
    }
}

proof fn lemma_grant_found(s: Seq<GrantView>, id: [u8; 32], at: int)
    requires
        0 <= at < s.len(),
        s[at].target.relay_service_id == id,
        forall|i: int| 0 <= i < at ==> (#[trigger] s[i]).target.relay_service_id != id,
    ensures
        grant_place(s, id) == at,
    decreases s.len(),
{
    if at < s.len() - 1 {
        assert forall|i: int| 0 <= i < at implies (#[trigger] s.drop_last()[i]).target.relay_service_id != id by {
            assert(s.drop_last()[i] == s[i]);
        }
        lemma_grant_found(s.drop_last(), id, at);
    } else {
        lemma_grant_place(s.drop_last(), id);
        let p = grant_place(s.drop_last(), id);
        if p < s.len() - 1 {
            assert(s.drop_last()[p as int] == s[p as int]);
        }
    }
}

/// Takes a grant up, in place of an earlier one of the same relay.
pub fn install_forward_grant(grants: &mut Vec<ForwardGrant>, grant: ForwardGrant)
    ensures
        views(final(grants)@) == with_grant(views(old(grants)@), grant@),
{
    let ghost s = views(grants@);
    let ghost id = grant.target.relay_service_id;
    let mut i: usize = 0;
    while i < grants.len()
        invariant
            i <= grants.len(),
            s == views(grants@),
            *grants == *old(grants),
            id == grant.target.relay_service_id,
            forall|j: int| 0 <= j < i ==> (#[trigger] s[j]).target.relay_service_id != id,
        decreases grants.len() - i,
    {
        assert(s[i as int] == grants@[i as int]@);
        if same_id(&grants[i].target.relay_service_id, &grant.target.relay_service_id) {
            proof {
                lemma_grant_found(s, id, i as int);
            }
            grants.set(i, grant);
            assert(views(grants@) =~= s.update(i as int, grant@));
            return ;
        }
        i += 1;
    }
    proof {
        lemma_grant_place(s, id);
    }
    grants.push(grant);
    assert(views(grants@) =~= s.push(grant@));
}

pub fn install_grants(grants: &mut Vec<ForwardGrant>, more: Vec<ForwardGrant>)
    ensures
        views(final(grants)@) == with_grants(views(old(grants)@), views(more@), more@.len()),
{
    let ghost s = views(grants@);
    let ghost all = more@;
    let ghost gs = views(more@);
    let mut more = more;
    let n: usize = more.len();
    let mut i: usize = 0;
    while i < n
        invariant
            i <= n,
            n == all.len(),
            gs == views(all),
            more@ == all.skip(i as int),
            views(grants@) == with_grants(s, gs, i as nat),
        decreases n - i,
    {
        let grant = more.remove(0);
        assert(more@ =~= all.skip(i + 1));
        assert(grant == all[i as int]);
        assert(gs[i as int] == grant@);
        install_forward_grant(grants, grant);
        i += 1;
    }
}

proof fn lemma_grant_there(s: Seq<GrantView>, gs: Seq<GrantView>, n: nat, i: int)
    requires
        0 <= i < n <= gs.len(),
        forall|j: int| i < j < n ==> (#[trigger] gs[j]).target.relay_service_id != gs[i].target.relay_service_id,
    ensures
        with_grants(s, gs, n).contains(gs[i]),
    decreases n,
{
    let before = with_grants(s, gs, (n - 1) as nat);
    let g = gs[n - 1];
    let now = with_grants(s, gs, n);
    lemma_grant_place(before, g.target.relay_service_id);
    let at = grant_place(before, g.target.relay_service_id);
    if i == n - 1 {
        assert(now[at as int] == g);
    } else {
        lemma_grant_there(s, gs, (n - 1) as nat, i);
        let k = before.index_of(gs[i]);
        assert(before[k] == gs[i]);
        assert(now[k] == gs[i]);
    }
}

/// A grant that comes back is held, unless a later one of the same relay is.
pub proof fn grants_stay_held(s: Seq<GrantView>, gs: Seq<GrantView>, i: int)
    requires
        0 <= i < gs.len(),
        forall|j: int| i < j < gs.len() ==> (#[trigger] gs[j]).target.relay_service_id != gs[i].target.relay_service_id,
    ensures
        with_grants(s, gs, gs.len()).contains(gs[i]),
{
    lemma_grant_there(s, gs, gs.len(), i);
}

/// The encoding of the transport identity in an archive. The first version has
/// none.
pub fn restore_tls_identity(buf: &[u8], keys: &NodeKeys, codec: &Codec, p: &Protocol) -> (r: Result<Option<Vec<u8>>, Error>)
    ensures
        match r {
            Ok(identity) => bytes_view(identity) == (if magic_version(buf@) == Some(1u8) {
                None
            } else {
                decoded(buf@, Reader { keys, codec, p })->Ok_0.tls_identity
            }),
            Err(e) => magic_version(buf@) != Some(1u8),
        },
        magic_version(buf@) != Some(1u8) ==> match decoded(buf@, Reader { keys, codec, p }) {
            Ok(_) => r is Ok,
            Err(e) => r == Err::<Option<Vec<u8>>, Error>(e),
        },
{
    if is_first_version(buf) {
        return Ok(None);
    }
    match decode_v2(buf, keys, codec, p) {
        Ok(archive) => Ok(archive.tls_identity),
        Err(e) => Err(e),
    }
}

/// The encoding of the routing directory in an archive. Where there is none the
/// node starts with an empty one.
pub fn restore_routing_directory(buf: &[u8], keys: &NodeKeys, codec: &Codec, p: &Protocol) -> (r: Result<Option<Vec<u8>>, Error>)
    ensures
        match r {
            Ok(directory) => bytes_view(directory) == (if magic_version(buf@) == Some(1u8) {
                None
            } else {
                decoded(buf@, Reader { keys, codec, p })->Ok_0.routing_directory
            }),
            Err(e) => magic_version(buf@) != Some(1u8),
        },
        magic_version(buf@) != Some(1u8) ==> match decoded(buf@, Reader { keys, codec, p }) {
            Ok(_) => r is Ok,
            Err(e) => r == Err::<Option<Vec<u8>>, Error>(e),
        },
{
    if is_first_version(buf) {
        return Ok(None);
    }
    match decode_v2(buf, keys, codec, p) {
        Ok(archive) => Ok(archive.routing_directory),
        Err(e) => Err(e),
    }
}

/// Two readings of the clocks, one after the other.
#[derive(Clone, Copy, Debug, PartialEq, Eq, Structural)]
pub struct Readings {
    pub wall_ms: u64,
    pub now: Instant,
    pub next_wall_ms: u64,
    pub next_now: Instant,
}

/// The effective time of the second reading, on a clock started by the first for
/// what was captured.
pub open spec fn effective_at(captured_ms: u64, at: Readings) -> Result<u64, Error> {
    let passed = ms_up((at.next_now.nanos - at.now.nanos) as nat);
    if captured_ms == 0 || at.wall_ms < captured_ms {
        Err(Error::ClockPrecedesSaved)
    } else if at.next_wall_ms < at.wall_ms || at.next_now.nanos < at.now.nanos {
        Err(Error::ClockRegressed)
    } else if at.wall_ms + passed > u64::MAX {
        Err(Error::ElapsedOverflow)
    } else if at.next_wall_ms >= at.wall_ms + passed {
        Ok(at.next_wall_ms)
    } else {
        Ok((at.wall_ms + passed) as u64)
    }
}

/// The owner's record in an archive, or why it cannot be taken up. Offline, its
/// aliases need not be live.
pub open spec fn restored_owner(a: Result<ArchiveView, Error>, offline: bool, at: Readings) -> Result<Option<RecordView>, Error> {
    match a {
        Err(e) => Err(e),
        Ok(a) => match a.owner_aliases {
            None => Ok(None),
            Some(record) => match effective_at(record.captured_ms, at) {
                Err(e) => Err(e),
                Ok(effective_ms) => match live_error(record, effective_ms) {
                    Some(e) if !offline => Err(e),
                    _ => Ok(Some(record)),
                },
            },
        },
    }
}

pub fn restore_owner_aliases(
    buf: &[u8],
    offline: bool,
    at: Readings,
    keys: &NodeKeys,
    codec: &Codec,
    p: &Protocol,
) -> (r: Result<Option<Record>, Error>)
    ensures
        ({
            let owner = if magic_version(buf@) == Some(1u8) {
                Ok::<Option<RecordView>, Error>(None)
            } else {
                restored_owner(decoded(buf@, Reader { keys, codec, p }), offline, at)
            };
            match r {
                Ok(record) => owner == Ok::<Option<RecordView>, Error>(maybe_view(record)),
                Err(e) => owner == Err::<Option<RecordView>, Error>(e),
            }
        }),
        r matches Ok(Some(record)) ==> record.wf(),
{
    if is_first_version(buf) {
        return Ok(None);
    }
    let archive = match decode_v2(buf, keys, codec, p) {
        Ok(archive) => archive,
        Err(e) => {
            return Err(e);
        },
    };
    match archive.owner_aliases {
        None => Ok(None),
        Some(record) => {
            let mut clock = match RestoreClock::new(record.captured_ms, at.wall_ms, at.now) {
                Ok(clock) => clock,
                Err(e) => {
                    return Err(e);
                },
            };
            let effective_ms: u64 = match clock.observe(at.next_wall_ms, at.next_now) {
                Ok(ms) => ms,
                Err(e) => {
                    return Err(e);
                },
            };
            if !offline {
                match record.validate_live(effective_ms) {
                    Ok(()) => {},
                    Err(e) => {
                        return Err(e);
                    },
                }
            }
            Ok(Some(record))
        },
    }
}

/// A cell that is to be forwarded to a contact through a relay.
#[derive(Debug)]
pub struct Transmission {
    pub relay: RelayProvision,
    pub destination: AliasContact,
    pub cell: Cell,
}

pub struct TransmissionView {
    pub relay: RelayProvisionView,
    pub destination: AliasContact,
    pub cell: CellView,
}

impl View for Transmission {
    type V = TransmissionView;

    open spec fn view(&self) -> TransmissionView {
        TransmissionView { relay: self.relay@, destination: self.destination, cell: self.cell@ }
    }
}

/// The transmissions of one delivery: each of its cells to the peer's first
/// contact, where it has one.
pub open spec fn sends(d: DirectDelivery) -> Seq<TransmissionView> {
    match d.peer.spec_primary() {
        Some(destination) => Seq::new(
            d.cells@.len(),
            |i: int| TransmissionView { relay: d.relay@, destination, cell: d.cells@[i]@ },
        ),
        None => Seq::empty(),
    }
}

/// The transmissions of the first `n` deliveries, one after the other.
pub open spec fn all_sends(s: Seq<DirectDelivery>, n: nat) -> Seq<TransmissionView>
    decreases n,
{
    if n == 0 {
        Seq::empty()
    } else {
        all_sends(s, (n - 1) as nat) + sends(s[n - 1])
    }
}

/// What a restored node sends at once: the acknowledgements that it kept.
pub fn resend(acks: &Vec<DirectDelivery>) -> (r: Vec<Transmission>)
    ensures
        views(r@) == all_sends(acks@, acks@.len()),
{
    let mut out: Vec<Transmission> = Vec::new();
    let mut i: usize = 0;
    assert(views(out@) =~= Seq::<TransmissionView>::empty());
    while i < acks.len()
        invariant
            i <= acks.len(),
            views(out@) == all_sends(acks@, i as nat),
        decreases acks.len() - i,
    {
        let ghost before = views(out@);
        match acks[i].peer.primary() {
            Some(destination) => {
                let mut j: usize = 0;
                assert(views(out@) =~= before + sends(acks@[i as int]).take(0));
                while j < acks[i].cells.len()
                    invariant
                        i < acks.len(),
                        j <= acks@[i as int].cells@.len(),
                        acks@[i as int].peer.spec_primary() == Some(destination),
                        views(out@) == before + sends(acks@[i as int]).take(j as int),
                    decreases acks[i as int].cells.len() - j,
                {
                    let ghost mid = views(out@);
                    let ghost all = sends(acks@[i as int]);
                    out.push(Transmission { relay: acks[i].relay.clone(), destination, cell: acks[i].cells[j].clone() });
                    assert(views(out@) =~= mid.push(all[j as int]));
                    assert(views(out@) =~= before + all.take(j + 1));
                    j += 1;
                }
                assert(sends(acks@[i as int]).take(j as int) =~= sends(acks@[i as int]));
            },
            None => {
                assert(views(out@) =~= before + sends(acks@[i as int]));
            },
        }
        i += 1;
    }
    out
}

} // verus!
