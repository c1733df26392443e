//! Writing a node archive.

use vstd::prelude::*;
use crate::archive::{layout_for, layout_of};
use crate::archive_frame::{ArchivedChannel, ArchivedChannelView, ChannelBody, ChannelBodyView, ChannelHead, ChannelHeadView, CoreFrame, CoreView, HeadFrame, HeadView, LedgerFrame, LedgerView, NameFrame, NameView, OutboxFrame, OutboxView, PeerFrame, PeerView, PolicyFrame, PolicyView, PreparedFrame, PreparedView, RouteEntryFrame, RouteEntryView, SealedFrame, SealedView, TailFrame, TailView, TrailerFrame, TrailerFrameView};
use crate::archive_item::{all_entries, all_refusal, first, keep_membership, membership_entry, membership_refusal, to_entries, ChannelWriting, Stored, Writing};
use crate::bytes::{copy_bytes, same_id, wipe};
use crate::channel_route::{seal_for, seal_prepared_route, seal_unified_route, sealed_for};
use crate::codec::{Codec, ForwardGrant, GrantView, NodeKeys, Protocol, RoleFacts};
use crate::error::Error;
use crate::grammar::{render, Shape, Tree};
use crate::model::{views, ChannelRoute, OwnedChannelRoute};
use crate::node_state::{ChannelState, NodeState, PreparedChannelJoin, Snapshot};
use crate::owner_aliases::{limited_record, observation};
use crate::owner_state::{live_record, same_but_clock, sealed_clock, seals_current};
use crate::record::{maybe_view, oversize, put_many, rendered, size_error, trees, Framed, Layout};
use crate::sealed_parts::{forward_grant_context, gc2_receipts_context, grant_context, receipts_context, routing_context, routing_view_context, seal_application_inbox, seal_central_ownership, seal_machine_ownership, seals_central, seals_inbox, seals_machine};
use crate::table::{key_for, lemma_place_is, value_views, Table};
use crate::time::Instant;

verus! {

/// What writing is done with.
#[derive(Clone, Copy)]
pub struct Writer<'a> {
    pub keys: &'a NodeKeys,
    pub codec: &'a Codec,
    pub p: &'a Protocol,
    pub wall_ms: u64,
    pub now: Instant,
    /// A session that is written in place of the live one.
    pub replaced: Option<(&'a Vec<u8>, &'a Snapshot)>,
}

/// Whether some session is credited, or the node was started for such sessions.
pub open spec fn credited(st: NodeState, replaced: Option<(&Vec<u8>, &Snapshot)>) -> bool {
    ||| exists|i: int| 0 <= i < st.sessions.entries@.len() && (#[trigger] st.sessions.entries@[i]).1.tag is Some
    ||| match replaced {
        Some((_, snapshot)) => snapshot.tag is Some,
        None => false,
    }
    ||| st.gc2_sessions
}

fn is_credited(st: &NodeState, replaced: Option<(&Vec<u8>, &Snapshot)>) -> (r: bool)
    ensures
        r == credited(*st, replaced),
{
    if st.gc2_sessions {
        return true;
    }
    match replaced {
        Some((_, snapshot)) => {
            if snapshot.tag.is_some() {
                return true;
            }
        },
        None => {},
    }
    let mut i: usize = 0;
    while i < st.sessions.entries.len()
        invariant
            i <= st.sessions.entries.len(),
            forall|j: int| 0 <= j < i ==> (#[trigger] st.sessions.entries@[j]).1.tag is None,
        decreases st.sessions.entries.len() - i,
    {
        if st.sessions.entries[i].1.tag.is_some() {
            return true;
        }
        i += 1;
    }
    false
}

/// The version that is written.
pub open spec fn written_version(st: NodeState, replaced: Option<(&Vec<u8>, &Snapshot)>) -> u8 {
    if credited(st, replaced) {
        21
    } else {
        19
    }
}

/// The magic number of a version that is written.
pub open spec fn magic(version: u8) -> Seq<u8> {
    seq![0x47u8, 0x43u8, 0x4eu8, 0x53u8, 0x54u8, if version == 21 { 0x4cu8 } else { 0x4au8 }]
}

pub open spec fn writing<'a>(st: &'a NodeState, w: Writer<'a>) -> Writing<'a> {
    Writing {
        codec: w.codec,
        now: w.now,
        session_states: &st.session_states,
        generations: &st.peer_route_generations,
        processed: &st.processed_direct,
        replaced: w.replaced,
    }
}

pub open spec fn core_refusal(st: &NodeState, w: Writer) -> Option<Error> {
    let e = writing(st, w);
    first(
        all_refusal(st.sessions.entries@, e),
        first(
            all_refusal(st.peer_routes.entries@, e),
            first(
                all_refusal(st.pending_1to1.entries@, e),
                first(all_refusal(st.direct_ack_outbox@, e), all_refusal(st.processed_direct_order@, e)),
            ),
        ),
    )
}

pub open spec fn core_entry(st: &NodeState, w: Writer) -> CoreView {
    let e = writing(st, w);
    CoreView {
        head: HeadView {
            exported_ms: w.wall_ms,
            next_direct_sequence: st.next_direct_sequence,
            local_contact_generation: st.local_contact_generation,
        },
        sessions: all_entries(st.sessions.entries@, e),
        peer_routes: all_entries(st.peer_routes.entries@, e),
        pending: all_entries(st.pending_1to1.entries@, e),
        acks: all_entries(st.direct_ack_outbox@, e),
        processed: all_entries(st.processed_direct_order@, e),
    }
}

fn keep_core(st: &NodeState, w: Writer) -> (r: Result<CoreFrame, Error>)
    ensures
        match r {
            Ok(f) => core_refusal(st, w) is None && f@ == core_entry(st, w),
            Err(e) => core_refusal(st, w) == Some(e),
        },
{
    let e = Writing {
        codec: w.codec,
        now: w.now,
        session_states: &st.session_states,
        generations: &st.peer_route_generations,
        processed: &st.processed_direct,
        replaced: w.replaced,
    };
    assert(e == writing(st, w));
    let sessions = match to_entries(&st.sessions.entries, e) {
        Ok(f) => f,
        Err(e) => {
            return Err(e);
        },
    };
    let peer_routes = match to_entries(&st.peer_routes.entries, e) {
        Ok(f) => f,
        Err(e) => {
            return Err(e);
        },
    };
    let pending = match to_entries(&st.pending_1to1.entries, e) {
        Ok(f) => f,
        Err(e) => {
            return Err(e);
        },
    };
    let acks = match to_entries(&st.direct_ack_outbox, e) {
        Ok(f) => f,
        Err(e) => {
            return Err(e);
        },
    };
    let processed = match to_entries(&st.processed_direct_order, e) {
        Ok(f) => f,
        Err(e) => {
            return Err(e);
        },
    };
    let head = HeadFrame {
        exported_ms: w.wall_ms,
        next_direct_sequence: st.next_direct_sequence,
        local_contact_generation: st.local_contact_generation,
    };
    Ok(CoreFrame { head, sessions, peer_routes, pending, acks, processed })
}

/// The name under which the node is in its own directory.
pub open spec fn own_name(entries: Seq<(String, ChannelRoute)>, n: nat, pseudonym: [u8; 32]) -> Option<Seq<char>>
    decreases n,
{
    if n == 0 {
        None
    } else {
        match own_name(entries, (n - 1) as nat, pseudonym) {
            Some(name) => Some(name),
            None => if entries[n - 1].1.pseudonym == pseudonym {
                Some(entries[n - 1].0@)
            } else {
                None
            },
        }
    }
}

proof fn lemma_own_name_stays(entries: Seq<(String, ChannelRoute)>, m: nat, n: nat, pseudonym: [u8; 32])
    requires
        m <= n,
        own_name(entries, m, pseudonym) is Some,
    ensures
        own_name(entries, n, pseudonym) == own_name(entries, m, pseudonym),
    decreases n,
{
    if m < n {
        lemma_own_name_stays(entries, m, (n - 1) as nat, pseudonym);
    }
}

fn find_own_name(directory: &Table<String, ChannelRoute>, pseudonym: &[u8; 32]) -> (r: Option<String>)
    ensures
        maybe_view(r) == own_name(directory.entries@, directory.entries@.len(), *pseudonym),
{
    let mut i: usize = 0;
    while i < directory.entries.len()
        invariant
            i <= directory.entries.len(),
            own_name(directory.entries@, i as nat, *pseudonym) is None,
        decreases directory.entries.len() - i,
    {
        if same_id(&directory.entries[i].1.pseudonym, pseudonym) {
            proof {
                lemma_own_name_stays(directory.entries@, (i + 1) as nat, directory.entries@.len(), *pseudonym);
            }
            return Some(directory.entries[i].0.clone());
        }
        i += 1;
    }
    None
}

/// What stands around the channels.
#[derive(Clone, Copy)]
pub struct ChannelsWriting<'a> {
    pub codec: &'a Codec,
    pub p: &'a Protocol,
}

pub open spec fn unless(good: bool, e: Error) -> Option<Error> {
    if good {
        None
    } else {
        Some(e)
    }
}

pub open spec fn body_refusal(c: &ChannelState, w: ChannelWriting, p: Protocol) -> Option<Error> {
    first(
        all_refusal(c.directory.entries@, w),
        first(
            all_refusal(c.message_outbox.entries@, w),
            first(membership_refusal(c.membership_outbox, w), ledger_refusal(c, w, p)),
        ),
    )
}

pub open spec fn ledger_refusal(c: &ChannelState, w: ChannelWriting, p: Protocol) -> Option<Error> {
    first(
        all_refusal(c.pending_control@, w),
        first(
            unless(c.admission_cache.entries@.len() == c.admission_cache_order@.len(), Error::InvalidAdmissionOrder),
            first(all_refusal(c.admission_cache_order@, w), first(all_refusal(c.completed_removals@, w), orders_refusal(c, w, p))),
        ),
    )
}

pub open spec fn orders_refusal(c: &ChannelState, w: ChannelWriting, p: Protocol) -> Option<Error> {
    first(
        unless(c.commit_ack_cache.entries@.len() == c.commit_ack_order@.len(), Error::InvalidAckOrder),
        first(
            all_refusal::<ChannelWriting, [u8; 16]>(c.commit_ack_order@, w),
            first(
                unless(
                    c.unrouted_ack_journal.entries@.len() == c.unrouted_ack_order@.len() && c.unrouted_ack_order@.len() <= p.channel_ack_limit,
                    Error::InvalidUnroutedOrder,
                ),
                first(
                    all_refusal(c.unrouted_ack_order@, w),
                    first(
                        unless(c.invites.entries@.len() == c.invite_order@.len(), Error::InvalidInviteOrder),
                        all_refusal(c.invite_order@, &c.invites),
                    ),
                ),
            ),
        ),
    )
}

pub open spec fn outbox_entry(c: &ChannelState, w: ChannelWriting) -> OutboxView {
    OutboxView {
        own_name: own_name(c.directory.entries@, c.directory.entries@.len(), w.role.pseudonym),
        directory: all_entries(c.directory.entries@, w),
        messages: all_entries(c.message_outbox.entries@, w),
        membership: membership_entry(c.membership_outbox, w),
    }
}

pub open spec fn ledger_entry(c: &ChannelState, w: ChannelWriting) -> LedgerView {
    LedgerView {
        control: all_entries(c.pending_control@, w),
        admissions: all_entries(c.admission_cache_order@, w),
        removals: all_entries(c.completed_removals@, w),
        commit_acks: all_entries::<ChannelWriting, [u8; 16]>(c.commit_ack_order@, w),
        unrouted: all_entries(c.unrouted_ack_order@, w),
        invites: all_entries(c.invite_order@, &c.invites),
    }
}

fn keep_outbox(c: &ChannelState, w: ChannelWriting) -> (r: Result<OutboxFrame, Error>)
    ensures
        ({
            let refusal = first(
                all_refusal(c.directory.entries@, w),
                first(all_refusal(c.message_outbox.entries@, w), membership_refusal(c.membership_outbox, w)),
            );
            match r {
                Ok(f) => refusal is None && f@ == outbox_entry(c, w),
                Err(e) => refusal == Some(e),
            }
        }),
{
    let own_name = find_own_name(&c.directory, &w.role.pseudonym);
    let directory = match to_entries(&c.directory.entries, w) {
        Ok(f) => f,
        Err(e) => {
            return Err(e);
        },
    };
    let messages = match to_entries(&c.message_outbox.entries, w) {
        Ok(f) => f,
        Err(e) => {
            return Err(e);
        },
    };
    let membership = match keep_membership(&c.membership_outbox, w) {
        Ok(f) => f,
        Err(e) => {
            return Err(e);
        },
    };
    Ok(OutboxFrame { own_name, directory, messages, membership })
}

fn keep_ledger(c: &ChannelState, w: ChannelWriting, p: &Protocol) -> (r: Result<LedgerFrame, Error>)
    ensures
        match r {
            Ok(f) => ledger_refusal(c, w, *p) is None && f@ == ledger_entry(c, w),
            Err(e) => ledger_refusal(c, w, *p) == Some(e),
        },
{
    let control = match to_entries(&c.pending_control, w) {
        Ok(f) => f,
        Err(e) => {
            return Err(e);
        },
    };
    if c.admission_cache.entries.len() != c.admission_cache_order.len() {
        return Err(Error::InvalidAdmissionOrder);
    }
    let admissions = match to_entries(&c.admission_cache_order, w) {
        Ok(f) => f,
        Err(e) => {
            return Err(e);
        },
    };
    let removals = match to_entries(&c.completed_removals, w) {
        Ok(f) => f,
        Err(e) => {
            return Err(e);
        },
    };
    if c.commit_ack_cache.entries.len() != c.commit_ack_order.len() {
        return Err(Error::InvalidAckOrder);
    }
    let commit_acks = match to_entries::<ChannelWriting, [u8; 16]>(&c.commit_ack_order, w) {
        Ok(f) => f,
        Err(e) => {
            return Err(e);
        },
    };
    if c.unrouted_ack_journal.entries.len() != c.unrouted_ack_order.len() || c.unrouted_ack_order.len() > p.channel_ack_limit {
        return Err(Error::InvalidUnroutedOrder);
    }
    let unrouted = match to_entries(&c.unrouted_ack_order, w) {
        Ok(f) => f,
        Err(e) => {
            return Err(e);
        },
    };
    if c.invites.entries.len() != c.invite_order.len() {
        return Err(Error::InvalidInviteOrder);
    }
    let invites = match to_entries(&c.invite_order, &c.invites) {
        Ok(f) => f,
        Err(e) => {
            return Err(e);
        },
    };
    Ok(LedgerFrame { control, admissions, removals, commit_acks, unrouted, invites })
}

pub open spec fn role_of(name: Seq<char>, c: &ChannelState, codec: Codec) -> Option<RoleFacts> {
    codec.role(c.owner, name, c.blob@)
}

impl<'a> Stored<ChannelsWriting<'a>> for (String, ChannelState) {
    type F = ArchivedChannel;

    open spec fn kept(&self, w: ChannelsWriting<'a>) -> bool {
        true
    }

    open spec fn refusal(&self, w: ChannelsWriting<'a>) -> Option<Error> {
        match role_of(self.0@, &self.1, *w.codec) {
            None => Some(Error::NotListed),
            Some(role) => body_refusal(
                &self.1,
                ChannelWriting { codec: w.codec, name: &self.0, role: &role, channel: &self.1 },
                *w.p,
            ),
        }
    }

    open spec fn entry(&self, w: ChannelsWriting<'a>) -> ArchivedChannelView {
        let role = role_of(self.0@, &self.1, *w.codec)->0;
        let cw = ChannelWriting { codec: w.codec, name: &self.0, role: &role, channel: &self.1 };
        ArchivedChannelView {
            head: ChannelHeadView { name: self.0@, public: self.1.public, owner: self.1.owner, blob: self.1.blob@ },
            body: ChannelBodyView { outbox: outbox_entry(&self.1, cw), ledger: ledger_entry(&self.1, cw) },
        }
    }

    fn is_kept(&self, w: ChannelsWriting<'a>) -> (r: bool) {
        true
    }

    fn to_entry(&self, w: ChannelsWriting<'a>) -> (r: Result<ArchivedChannel, Error>) {
        let role = match w.codec.restore_role(self.1.owner, &self.0, &self.1.blob) {
            Some(role) => role,
            None => {
                return Err(Error::NotListed);
            },
        };
        let cw = ChannelWriting { codec: w.codec, name: &self.0, role, channel: &self.1 };
        let outbox = match keep_outbox(&self.1, cw) {
            Ok(f) => f,
            Err(e) => {
                return Err(e);
            },
        };
        let ledger = match keep_ledger(&self.1, cw, w.p) {
            Ok(f) => f,
            Err(e) => {
                return Err(e);
            },
        };
        let head = ChannelHead {
            name: self.0.clone(),
            public: self.1.public,
            owner: self.1.owner,
            blob: copy_bytes(self.1.blob.as_slice()),
        };
        Ok(ArchivedChannel { head, body: ChannelBody { outbox, ledger } })
    }
}

impl<'a> Stored<ChannelsWriting<'a>> for Vec<u8> {
    type F = PeerFrame;

    open spec fn kept(&self, w: ChannelsWriting<'a>) -> bool {
        true
    }

    open spec fn refusal(&self, w: ChannelsWriting<'a>) -> Option<Error> {
        unless(self@.len() > 0, Error::InvalidDirectPresence)
    }

    open spec fn entry(&self, w: ChannelsWriting<'a>) -> PeerView {
        PeerView { peer: self@ }
    }

    fn is_kept(&self, w: ChannelsWriting<'a>) -> (r: bool) {
        true
    }

    fn to_entry(&self, w: ChannelsWriting<'a>) -> (r: Result<PeerFrame, Error>) {
        if self.len() == 0 {
            return Err(Error::InvalidDirectPresence);
        }
        Ok(PeerFrame { peer: copy_bytes(self.as_slice()) })
    }
}

impl<'a> Stored<&'a Table<String, ChannelState>> for String {
    type F = NameFrame;

    open spec fn kept(&self, w: &'a Table<String, ChannelState>) -> bool {
        true
    }

    open spec fn refusal(&self, w: &'a Table<String, ChannelState>) -> Option<Error> {
        unless(w.has(self@), Error::InvalidChannelPresence)
    }

    open spec fn entry(&self, w: &'a Table<String, ChannelState>) -> NameView {
        NameView { name: self@ }
    }

    fn is_kept(&self, w: &'a Table<String, ChannelState>) -> (r: bool) {
        true
    }

    fn to_entry(&self, w: &'a Table<String, ChannelState>) -> (r: Result<NameFrame, Error>) {
        if !w.contains_key(self) {
            return Err(Error::InvalidChannelPresence);
        }
        Ok(NameFrame { name: self.clone() })
    }
}

/// Why plain bytes cannot be sealed.
pub open spec fn seal_refusal(aad: Option<Seq<u8>>, plain: Seq<u8>) -> Option<Error> {
    match aad {
        None => Some(Error::ContextRefused),
        Some(aad) => unless(crate::seal::sealable(plain.len(), aad.len()), Error::SealFailed),
    }
}

/// The encoding of a grant.
pub open spec fn grant_wire(codec: Codec, grant: GrantView) -> Option<Seq<u8>> {
    key_for(codec.grants.entries@, grant)
}

fn encode_grant(codec: &Codec, grant: &ForwardGrant) -> (r: Option<Vec<u8>>)
    ensures
        match r {
            Some(bytes) => grant_wire(*codec, grant@) == Some(bytes@),
            None => grant_wire(*codec, grant@) is None,
        },
{
    let ghost all = value_views(codec.grants.entries@);
    let mut i: usize = 0;
    while i < codec.grants.entries.len()
        invariant
            i <= codec.grants.entries.len(),
            all == value_views(codec.grants.entries@),
            forall|j: int| 0 <= j < i ==> all[j] != grant@,
        decreases codec.grants.entries.len() - i,
    {
        if codec.grants.entries[i].1.same(grant) {
            proof {
                lemma_place_is(all, grant@, i as int);
                assert(all[i as int] == grant@);
            }
            return Some(copy_bytes(codec.grants.entries[i].0.as_slice()));
        }
        i += 1;
    }
    None
}

pub open spec fn grant_refusal(grant: GrantView, aad: Option<Seq<u8>>, codec: Codec) -> Option<Error> {
    match grant_wire(codec, grant) {
        None => Some(Error::NotListed),
        Some(wire) => seal_refusal(aad, wire),
    }
}

/// Why the first of the first `n` grants that cannot be sealed cannot.
pub open spec fn grants_refusal(grants: Seq<ForwardGrant>, n: nat, aad: Option<Seq<u8>>, codec: Codec) -> Option<Error>
    decreases n,
{
    if n == 0 {
        if aad is None {
            Some(Error::ContextRefused)
        } else {
            None
        }
    } else {
        first(grants_refusal(grants, (n - 1) as nat, aad, codec), grant_refusal(grants[n - 1]@, aad, codec))
    }
}

proof fn lemma_grants_refusal_stays(grants: Seq<ForwardGrant>, m: nat, n: nat, aad: Option<Seq<u8>>, codec: Codec)
    requires
        m <= n,
        grants_refusal(grants, m, aad, codec) is Some,
    ensures
        grants_refusal(grants, n, aad, codec) == grants_refusal(grants, m, aad, codec),
    decreases n,
{
    if m < n {
        lemma_grants_refusal_stays(grants, m, (n - 1) as nat, aad, codec);
    }
}

pub open spec fn grants_aad(w: Writer) -> Option<Seq<u8>> {
    w.codec.aad(grant_context(w.keys.identity_public@))
}

/// Whether a sealed value holds plain bytes.
pub open spec fn holds(key: Seq<u8>, aad: Option<Seq<u8>>, sealed: Seq<u8>, plain: Seq<u8>) -> bool {
    sealed.len() == plain.len() + 28 && crate::channel_route::opened_for(key, aad, sealed) == Ok::<Seq<u8>, Error>(plain)
}

/// Whether sealed entries are those of the grants.
pub open spec fn grants_kept(grants: Seq<ForwardGrant>, out: Seq<SealedView>, w: Writer) -> bool {
    out.len() == grants.len() && forall|i: int|
        0 <= i < out.len() ==> holds(
            w.keys.wrapping_key@,
            grants_aad(w),
            (#[trigger] out[i]).sealed,
            grant_wire(*w.codec, grants[i]@)->0,
        )
}

fn seal_grants(grants: &Vec<ForwardGrant>, w: Writer) -> (r: Result<Vec<SealedFrame>, Error>)
    ensures
        match r {
            Ok(out) => grants_refusal(grants@, grants@.len(), grants_aad(w), *w.codec) is None && grants_kept(grants@, views(out@), w),
            Err(e) => grants_refusal(grants@, grants@.len(), grants_aad(w), *w.codec) == Some(e),
        },
{
    let context = forward_grant_context(w.keys);
    let ghost aad = grants_aad(w);
    if w.codec.context_aad(&context).is_err() {
        proof {
            lemma_grants_refusal_stays(grants@, 0, grants@.len(), aad, *w.codec);
        }
        return Err(Error::ContextRefused);
    }
    let mut out: Vec<SealedFrame> = Vec::new();
    let mut i: usize = 0;
    while i < grants.len()
        invariant
            i <= grants.len(),
            aad == grants_aad(w),
            aad == w.codec.aad(context@),
            aad is Some,
            out@.len() == i,
            grants_refusal(grants@, i as nat, aad, *w.codec) is None,
            forall|j: int|
                0 <= j < i ==> holds(w.keys.wrapping_key@, aad, (#[trigger] out@[j])@.sealed, grant_wire(*w.codec, grants@[j]@)->0),
        decreases grants.len() - i,
    {
        let wire = match encode_grant(w.codec, &grants[i]) {
            Some(wire) => wire,
            None => {
                proof {
                    lemma_grants_refusal_stays(grants@, (i + 1) as nat, grants@.len(), aad, *w.codec);
                }
                return Err(Error::NotListed);
            },
        };
        match seal_for(&w.keys.wrapping_key, &context, wire.as_slice(), w.codec) {
            Ok(sealed) => {
                out.push(SealedFrame { sealed });
            },
            Err(e) => {
                proof {
                    lemma_grants_refusal_stays(grants@, (i + 1) as nat, grants@.len(), aad, *w.codec);
                }
                return Err(e);
            },
        }
        i += 1;
    }
    proof {
        assert forall|j: int| 0 <= j < views(out@).len() implies holds(
            w.keys.wrapping_key@,
            aad,
            (#[trigger] views(out@)[j]).sealed,
            grant_wire(*w.codec, grants@[j]@)->0,
        ) by {
            assert(views(out@)[j] == out@[j]@);
        }
    }
    Ok(out)
}

/// Why a prepared join cannot be sealed.
pub open spec fn join_refusal(join: PreparedChannelJoin, w: Writer) -> Option<Error> {
    first(
        crate::channel_route::write_error(join.route@, *w.codec),
        seal_refusal(
            w.codec.aad(crate::channel_route::prepared_context(w.keys.identity_public@, join.route.public.pseudonym)),
            crate::channel_route::route_plain(join.route@, *w.codec),
        ),
    )
}

pub open spec fn joins_refusal(joins: Seq<(u64, PreparedChannelJoin)>, n: nat, w: Writer) -> Option<Error>
    decreases n,
{
    if n == 0 {
        None
    } else {
        first(joins_refusal(joins, (n - 1) as nat, w), join_refusal(joins[n - 1].1, w))
    }
}

proof fn lemma_joins_refusal_stays(joins: Seq<(u64, PreparedChannelJoin)>, m: nat, n: nat, w: Writer)
    requires
        m <= n,
        joins_refusal(joins, m, w) is Some,
    ensures
        joins_refusal(joins, n, w) == joins_refusal(joins, m, w),
    decreases n,
{
    if m < n {
        lemma_joins_refusal_stays(joins, m, (n - 1) as nat, w);
    }
}

/// Whether an entry is that of a prepared join.
pub open spec fn join_kept(id: u64, join: PreparedChannelJoin, out: PreparedView, w: Writer) -> bool {
    &&& out.id == id
    &&& out.display == join.display@
    &&& out.mls == join.mls@
    &&& holds(
        w.keys.archive_key@,
        w.codec.aad(crate::channel_route::prepared_context(w.keys.identity_public@, join.route.public.pseudonym)),
        out.route,
        crate::channel_route::route_plain(join.route@, *w.codec),
    )
}

pub open spec fn joins_kept(joins: Seq<(u64, PreparedChannelJoin)>, out: Seq<PreparedView>, w: Writer) -> bool {
    out.len() == joins.len() && forall|i: int| 0 <= i < out.len() ==> join_kept(joins[i].0, joins[i].1, #[trigger] out[i], w)
}

fn seal_joins(joins: &Vec<(u64, PreparedChannelJoin)>, w: Writer) -> (r: Result<Vec<PreparedFrame>, Error>)
    ensures
        match r {
            Ok(out) => joins_refusal(joins@, joins@.len(), w) is None && joins_kept(joins@, views(out@), w),
            Err(e) => joins_refusal(joins@, joins@.len(), w) == Some(e),
        },
{
    let mut out: Vec<PreparedFrame> = Vec::new();
    let mut i: usize = 0;
    while i < joins.len()
        invariant
            i <= joins.len(),
            out@.len() == i,
            joins_refusal(joins@, i as nat, w) is None,
            forall|j: int| 0 <= j < i ==> join_kept(joins@[j].0, joins@[j].1, (#[trigger] out@[j])@, w),
        decreases joins.len() - i,
    {
        match seal_prepared_route(&joins[i].1.route, w.keys, w.codec) {
            Ok(route) => {
                out.push(
                    PreparedFrame {
                        id: joins[i].0,
                        display: joins[i].1.display.clone(),
                        mls: copy_bytes(joins[i].1.mls.as_slice()),
                        route,
                    },
                );
            },
            Err(e) => {
                proof {
                    lemma_joins_refusal_stays(joins@, (i + 1) as nat, joins@.len(), w);
                }
                return Err(e);
            },
        }
        i += 1;
    }
    proof {
        assert forall|j: int| 0 <= j < views(out@).len() implies join_kept(joins@[j].0, joins@[j].1, #[trigger] views(out@)[j], w) by {
            assert(views(out@)[j] == out@[j]@);
        }
    }
    Ok(out)
}

/// Why a route in force, or the one before it, cannot be sealed.
pub open spec fn route_refusal(route: OwnedChannelRoute, name: Seq<char>, role: RoleFacts, previous: bool, w: Writer) -> Option<Error> {
    let aad = w.codec.aad(crate::channel_route::route_context(w.keys.identity_public@, role, previous));
    first(
        crate::channel_route::unified_error(route@, w.keys.seed@, name, role, *w.codec, *w.p),
        first(
            if aad is None {
                Some(Error::ContextRefused)
            } else {
                None
            },
            first(
                crate::channel_route::write_error(route@, *w.codec),
                seal_refusal(aad, crate::channel_route::route_plain(route@, *w.codec)),
            ),
        ),
    )
}

/// Whether a channel has routes of this node to keep.
pub open spec fn has_routes(c: ChannelState) -> bool {
    c.own_route.aliases@.len() > 0 || c.previous_own_route is Some
}

pub open spec fn channel_route_refusal(name: Seq<char>, c: ChannelState, w: Writer) -> Option<Error> {
    match role_of(name, &c, *w.codec) {
        None => Some(Error::NotListed),
        Some(role) => first(
            if c.own_route.aliases@.len() > 0 {
                route_refusal(c.own_route, name, role, false, w)
            } else {
                None
            },
            match c.previous_own_route {
                Some(route) => route_refusal(route, name, role, true, w),
                None => None,
            },
        ),
    }
}

pub open spec fn routes_refusal(channels: Seq<(String, ChannelState)>, n: nat, w: Writer) -> Option<Error>
    decreases n,
{
    if n == 0 {
        None
    } else {
        first(
            routes_refusal(channels, (n - 1) as nat, w),
            if has_routes(channels[n - 1].1) {
                channel_route_refusal(channels[n - 1].0@, channels[n - 1].1, w)
            } else {
                None
            },
        )
    }
}

proof fn lemma_routes_refusal_stays(channels: Seq<(String, ChannelState)>, m: nat, n: nat, w: Writer)
    requires
        m <= n,
        routes_refusal(channels, m, w) is Some,
    ensures
        routes_refusal(channels, n, w) == routes_refusal(channels, m, w),
    decreases n,
{
    if m < n {
        lemma_routes_refusal_stays(channels, m, (n - 1) as nat, w);
    }
}

/// Whether a sealed value is a channel's route of this node, where it has one.
pub open spec fn route_kept(route: Option<OwnedChannelRoute>, sealed: Option<Seq<u8>>, role: RoleFacts, previous: bool, w: Writer) -> bool {
    match (route, sealed) {
        (Some(route), Some(sealed)) => holds(
            w.keys.archive_key@,
            w.codec.aad(crate::channel_route::route_context(w.keys.identity_public@, role, previous)),
            sealed,
            crate::channel_route::route_plain(route@, *w.codec),
        ),
        (None, None) => true,
        _ => false,
    }
}

/// The route in force, where it has queues.
pub open spec fn current_route(c: ChannelState) -> Option<OwnedChannelRoute> {
    if c.own_route.aliases@.len() > 0 {
        Some(c.own_route)
    } else {
        None
    }
}

pub open spec fn channel_routes_kept(name: Seq<char>, c: ChannelState, out: RouteEntryView, w: Writer) -> bool {
    let role = role_of(name, &c, *w.codec)->0;
    &&& out.name == name
    &&& route_kept(current_route(c), out.current, role, false, w)
    &&& route_kept(c.previous_own_route, out.previous, role, true, w)
}

/// Whether entries are those of the routes of the first `n` channels.
pub open spec fn routes_kept(channels: Seq<(String, ChannelState)>, n: nat, out: Seq<RouteEntryView>, w: Writer) -> bool
    decreases n,
{
    if n == 0 {
        out.len() == 0
    } else if has_routes(channels[n - 1].1) {
        out.len() > 0 && routes_kept(channels, (n - 1) as nat, out.drop_last(), w) && channel_routes_kept(
            channels[n - 1].0@,
            channels[n - 1].1,
            out.last(),
            w,
        )
    } else {
        routes_kept(channels, (n - 1) as nat, out, w)
    }
}

fn seal_channel_routes(name: &String, c: &ChannelState, w: Writer) -> (r: Result<RouteEntryFrame, Error>)
    ensures
        match r {
            Ok(f) => channel_route_refusal(name@, *c, w) is None && channel_routes_kept(name@, *c, f@, w),
            Err(e) => channel_route_refusal(name@, *c, w) == Some(e),
        },
{
    let role = match w.codec.restore_role(c.owner, name, &c.blob) {
        Some(role) => role,
        None => {
            return Err(Error::NotListed);
        },
    };
    let current = if c.own_route.aliases.len() > 0 {
        match seal_unified_route(&c.own_route, name.as_str(), role, false, w.keys, w.codec, w.p) {
            Ok(sealed) => Some(sealed),
            Err(e) => {
                return Err(e);
            },
        }
    } else {
        None
    };
    let previous = match &c.previous_own_route {
        Some(route) => match seal_unified_route(route, name.as_str(), role, true, w.keys, w.codec, w.p) {
            Ok(sealed) => Some(sealed),
            Err(e) => {
                return Err(e);
            },
        },
        None => None,
    };
    Ok(RouteEntryFrame { name: name.clone(), current, previous })
}

fn seal_routes(channels: &Vec<(String, ChannelState)>, w: Writer) -> (r: Result<Vec<RouteEntryFrame>, Error>)
    ensures
        match r {
            Ok(out) => routes_refusal(channels@, channels@.len(), w) is None && routes_kept(channels@, channels@.len(), views(out@), w),
            Err(e) => routes_refusal(channels@, channels@.len(), w) == Some(e),
        },
{
    let mut out: Vec<RouteEntryFrame> = Vec::new();
    let mut i: usize = 0;
    while i < channels.len()
        invariant
            i <= channels.len(),
            routes_refusal(channels@, i as nat, w) is None,
            routes_kept(channels@, i as nat, views(out@), w),
        decreases channels.len() - i,
    {
        let c = &channels[i].1;
        if c.own_route.aliases.len() > 0 || c.previous_own_route.is_some() {
            let ghost before = views(out@);
            match seal_channel_routes(&channels[i].0, c, w) {
                Ok(f) => {
                    out.push(f);
                    assert(views(out@) =~= before.push(f@));
                    assert(views(out@).drop_last() =~= before);
                },
                Err(e) => {
                    proof {
                        lemma_routes_refusal_stays(channels@, (i + 1) as nat, channels@.len(), w);
                    }
                    return Err(e);
                },
            }
        }
        i += 1;
    }
    Ok(out)
}

pub open spec fn channels_writing<'a>(w: Writer<'a>) -> ChannelsWriting<'a> {
    ChannelsWriting { codec: w.codec, p: w.p }
}

pub open spec fn channels_shape(layout: Layout) -> Shape {
    Shape::Many(layout.channel_max as nat, Box::new(ArchivedChannel::shape(layout)))
}

pub open spec fn channels_tree(channels: Seq<ArchivedChannelView>, layout: Layout) -> Tree {
    Tree::Many(trees::<ArchivedChannel>(channels, layout))
}

pub open spec fn channel_entries(st: &NodeState, w: Writer) -> Seq<ArchivedChannelView> {
    all_entries(st.channels.entries@, channels_writing(w))
}

pub open spec fn write_layout(st: &NodeState, w: Writer) -> Layout {
    layout_of(written_version(*st, w.replaced), *w.p)
}

/// Why the journals and the policy of a node cannot be written.
pub open spec fn journals_refusal(st: &NodeState, w: Writer) -> Option<Error> {
    let layout = write_layout(st, w);
    first(
        unless(!st.owner_transition_failed, Error::OwnerTransitionUnconfirmed),
        first(
            core_refusal(st, w),
            first(
                oversize::<CoreFrame>(core_entry(st, w), layout),
                first(
                    all_refusal(st.channels.entries@, channels_writing(w)),
                    first(size_error(channels_shape(layout), channels_tree(channel_entries(st, w), layout)), policy_refusal(st, w)),
                ),
            ),
        ),
    )
}

pub open spec fn policy_refusal(st: &NodeState, w: Writer) -> Option<Error> {
    first(
        all_refusal(st.presence.direct_opt_in@, channels_writing(w)),
        first(
            all_refusal(st.presence.channel_opt_in@, &st.channels),
            grants_refusal(st.forward_grants@, st.forward_grants@.len(), grants_aad(w), *w.codec),
        ),
    )
}

pub open spec fn policy_entry(st: &NodeState, grants: Seq<SealedView>, w: Writer) -> PolicyView {
    PolicyView {
        peers: all_entries(st.presence.direct_opt_in@, channels_writing(w)),
        channels: all_entries(st.presence.channel_opt_in@, &st.channels),
        grants,
    }
}

/// The archive up to and with the policy.
pub open spec fn journals_bytes(st: &NodeState, policy: PolicyView, w: Writer) -> Seq<u8> {
    let layout = write_layout(st, w);
    magic(layout.version) + rendered::<CoreFrame>(core_entry(st, w), layout) + render(
        channels_shape(layout),
        channels_tree(channel_entries(st, w), layout),
    ) + rendered::<PolicyFrame>(policy, layout)
}

/// How the writing of the journals and the policy comes out.
pub open spec fn writes_journals(st: &NodeState, w: Writer, r: Result<Vec<u8>, Error>) -> bool {
    match journals_refusal(st, w) {
        Some(e) => r == Err::<Vec<u8>, Error>(e),
        None => exists|grants: Seq<SealedView>| #[trigger]
            grants_kept(st.forward_grants@, grants, w) && {
                let policy = policy_entry(st, grants, w);
                match oversize::<PolicyFrame>(policy, write_layout(st, w)) {
                    Some(e) => r == Err::<Vec<u8>, Error>(e),
                    None => r matches Ok(done) && done@ == journals_bytes(st, policy, w),
                }
            },
    }
}

fn write_journals(st: &NodeState, w: Writer) -> (r: Result<Vec<u8>, Error>)
    ensures
        writes_journals(st, w, r),
{
    if st.owner_transition_failed {
        return Err(Error::OwnerTransitionUnconfirmed);
    }
    let version: u8 = if is_credited(st, w.replaced) {
        21
    } else {
        19
    };
    let layout = layout_for(version, w.p);
    let mut out: Vec<u8> = Vec::new();
    out.push(0x47);
    out.push(0x43);
    out.push(0x4e);
    out.push(0x53);
    out.push(0x54);
    out.push(if version == 21 { 0x4c } else { 0x4a });
    assert(out@ =~= magic(layout.version));
    let core = match keep_core(st, w) {
        Ok(core) => core,
        Err(e) => {
            return Err(e);
        },
    };
    match core.put_into(&mut out, layout) {
        Ok(()) => {},
        Err(e) => {
            wipe(&mut out);
            return Err(e);
        },
    }
    let cw = ChannelsWriting { codec: w.codec, p: w.p };
    let channels = match to_entries(&st.channels.entries, cw) {
        Ok(channels) => channels,
        Err(e) => {
            wipe(&mut out);
            return Err(e);
        },
    };
    match put_many(&channels, &mut out, Ghost(layout.channel_max as nat), layout) {
        Ok(()) => {},
        Err(e) => {
            wipe(&mut out);
            return Err(e);
        },
    }
    let peers = match to_entries(&st.presence.direct_opt_in, cw) {
        Ok(peers) => peers,
        Err(e) => {
            wipe(&mut out);
            return Err(e);
        },
    };
    let names = match to_entries(&st.presence.channel_opt_in, &st.channels) {
        Ok(names) => names,
        Err(e) => {
            wipe(&mut out);
            return Err(e);
        },
    };
    let grants = match seal_grants(&st.forward_grants, w) {
        Ok(grants) => grants,
        Err(e) => {
            wipe(&mut out);
            return Err(e);
        },
    };
    let policy = PolicyFrame { peers, channels: names, grants };
    assert(policy@ == policy_entry(st, views(policy.grants@), w));
    match policy.put_into(&mut out, layout) {
        Ok(()) => {},
        Err(e) => {
            wipe(&mut out);
            return Err(e);
        },
    }
    assert(out@ =~= journals_bytes(st, policy@, w));
    Ok(out)
}

/// How the writing of what follows the policy comes out.
pub open spec fn writes_tail(st: &NodeState, done: Seq<u8>, w: Writer, r: Result<Vec<u8>, Error>) -> bool {
    exists|inbox: Result<Vec<u8>, Error>| #[trigger]
        seals_inbox(st.application_inbox.messages@, *w.keys, *w.codec, *w.p, inbox) && match inbox {
            Err(e) => r == Err::<Vec<u8>, Error>(e),
            Ok(inbox) => writes_joins(st, done, inbox@, w, r),
        }
}

pub open spec fn writes_joins(st: &NodeState, done: Seq<u8>, inbox: Seq<u8>, w: Writer, r: Result<Vec<u8>, Error>) -> bool {
    match joins_refusal(st.prepared.entries@, st.prepared.entries@.len(), w) {
        Some(e) => r == Err::<Vec<u8>, Error>(e),
        None => exists|joins: Seq<PreparedView>| #[trigger]
            joins_kept(st.prepared.entries@, joins, w) && writes_central(st, done, inbox, joins, w, r),
    }
}

pub open spec fn tail_entry(st: &NodeState, inbox: Seq<u8>, joins: Seq<PreparedView>, central: Seq<u8>) -> TailView {
    TailView {
        inbox,
        next_prep_id: st.next_prep_id,
        prepared: joins,
        tls_identity: st.sealed_tls_identity@,
        central,
    }
}

pub open spec fn writes_central(
    st: &NodeState,
    done: Seq<u8>,
    inbox: Seq<u8>,
    joins: Seq<PreparedView>,
    w: Writer,
    r: Result<Vec<u8>, Error>,
) -> bool {
    exists|central: Result<Vec<u8>, Error>| #[trigger]
        seals_central(maybe_view(st.application_inbox.central_ownership), *w.keys, *w.codec, central) && match central {
            Err(e) => r == Err::<Vec<u8>, Error>(e),
            Ok(central) => {
                let tail = tail_entry(st, inbox, joins, central@);
                let layout = write_layout(st, w);
                match oversize::<TailFrame>(tail, layout) {
                    Some(e) => r == Err::<Vec<u8>, Error>(e),
                    None => r matches Ok(out) && out@ == done + rendered::<TailFrame>(tail, layout),
                }
            },
        }
}

fn write_tail(st: &NodeState, done: Vec<u8>, layout: Layout, w: Writer) -> (r: Result<Vec<u8>, Error>)
    requires
        layout == write_layout(st, w),
    ensures
        writes_tail(st, done@, w, r),
{
    let mut out = done;
    let inbox = match seal_application_inbox(&st.application_inbox.messages, w.keys, w.codec, w.p) {
        Ok(inbox) => inbox,
        Err(e) => {
            wipe(&mut out);
            return Err(e);
        },
    };
    let prepared = match seal_joins(&st.prepared.entries, w) {
        Ok(prepared) => prepared,
        Err(e) => {
            wipe(&mut out);
            return Err(e);
        },
    };
    let ghost joins = views(prepared@);
    let sealed = seal_central_ownership(&st.application_inbox.central_ownership, w.keys, w.codec);
    let central = match sealed {
        Ok(central) => central,
        Err(e) => {
            wipe(&mut out);
            let r: Result<Vec<u8>, Error> = Err(e);
            assert(writes_central(st, done@, inbox@, joins, w, r));
            return r;
        },
    };
    let ghost value = tail_entry(st, inbox@, joins, central@);
    let tail = TailFrame {
        inbox,
        next_prep_id: st.next_prep_id,
        prepared,
        tls_identity: copy_bytes(st.sealed_tls_identity.as_slice()),
        central,
    };
    assert(tail@ == value);
    match tail.put_into(&mut out, layout) {
        Ok(()) => {},
        Err(e) => {
            wipe(&mut out);
            let r: Result<Vec<u8>, Error> = Err(e);
            assert(writes_central(st, done@, tail.inbox@, joins, w, r));
            return r;
        },
    }
    let r: Result<Vec<u8>, Error> = Ok(out);
    assert(writes_central(st, done@, tail.inbox@, joins, w, r));
    r
}

/// How the sealing of the owner's record comes out. A routed node without
/// receive routes keeps none.
pub open spec fn seals_owner(st: &NodeState, w: Writer, r: Result<Vec<u8>, Error>) -> bool {
    if st.routing is Some && st.owner.client_relay.aliases@.len() == 0 {
        r matches Ok(sealed) && sealed@.len() == 0
    } else {
        match observation(st.owner.owner_clock, w.wall_ms, w.now) {
            Err(e) => r == Err::<Vec<u8>, Error>(e),
            Ok(captured_ms) => match live_record(st.owner, w.now, captured_ms) {
                Err(e) => r == Err::<Vec<u8>, Error>(e),
                Ok(live) => seals_current(
                    limited_record(live, st.owner.owner_clock),
                    captured_ms,
                    st.owner.routed,
                    *w.keys,
                    *w.codec,
                    *w.p,
                    r,
                ),
            },
        }
    }
}

/// How the sealing of the routing directory comes out, where there is one.
pub open spec fn seals_directory(st: &NodeState, w: Writer, r: Result<Vec<u8>, Error>) -> bool {
    match st.routing {
        None => r matches Ok(sealed) && sealed@.len() == 0,
        Some(plain) => sealed_for(
            w.keys.archive_key@,
            w.codec.aad(routing_view_context(w.keys.identity_public@)),
            plain@,
            r,
        ),
    }
}

fn seal_directory(st: &NodeState, w: Writer) -> (r: Result<Vec<u8>, Error>)
    ensures
        seals_directory(st, w, r),
{
    match &st.routing {
        None => Ok(Vec::new()),
        Some(plain) => seal_for(&w.keys.archive_key, &routing_context(w.keys), plain.as_slice(), w.codec),
    }
}

/// How the sealing of the receipt ledger comes out, where the version has one.
pub open spec fn seals_receipts(st: &NodeState, w: Writer, r: Result<Vec<u8>, Error>) -> bool {
    if credited(*st, w.replaced) {
        sealed_for(
            w.keys.archive_key@,
            w.codec.aad(receipts_context(w.keys.identity_public@)),
            st.gc2_receipts@,
            r,
        )
    } else {
        r matches Ok(sealed) && sealed@.len() == 0
    }
}

fn seal_receipts(st: &NodeState, w: Writer) -> (r: Result<Vec<u8>, Error>)
    ensures
        seals_receipts(st, w, r),
{
    if is_credited(st, w.replaced) {
        seal_for(&w.keys.archive_key, &gc2_receipts_context(w.keys), st.gc2_receipts.as_slice(), w.codec)
    } else {
        Ok(Vec::new())
    }
}

/// How the writing of the end comes out.
pub open spec fn writes_end(st: &NodeState, done: Seq<u8>, machine: Seq<u8>, owner: Seq<u8>, w: Writer, r: Result<Vec<u8>, Error>) -> bool {
    exists|directory: Result<Vec<u8>, Error>| #[trigger]
        seals_directory(st, w, directory) && match directory {
            Err(e) => r == Err::<Vec<u8>, Error>(e),
            Ok(directory) => match routes_refusal(st.channels.entries@, st.channels.entries@.len(), w) {
                Some(e) => r == Err::<Vec<u8>, Error>(e),
                None => exists|routes: Seq<RouteEntryView>| #[trigger]
                    routes_kept(st.channels.entries@, st.channels.entries@.len(), routes, w) && writes_receipts(
                        st,
                        done,
                        machine,
                        owner,
                        directory@,
                        routes,
                        w,
                        r,
                    ),
            },
        }
}

pub open spec fn end_entry(machine: Seq<u8>, owner: Seq<u8>, directory: Seq<u8>, routes: Seq<RouteEntryView>, receipts: Seq<u8>) -> TrailerFrameView {
    TrailerFrameView { machine, owner, directory, routes, receipts }
}

pub open spec fn writes_receipts(
    st: &NodeState,
    done: Seq<u8>,
    machine: Seq<u8>,
    owner: Seq<u8>,
    directory: Seq<u8>,
    routes: Seq<RouteEntryView>,
    w: Writer,
    r: Result<Vec<u8>, Error>,
) -> bool {
    exists|receipts: Result<Vec<u8>, Error>| #[trigger]
        seals_receipts(st, w, receipts) && match receipts {
            Err(e) => r == Err::<Vec<u8>, Error>(e),
            Ok(receipts) => {
                let end = end_entry(machine, owner, directory, routes, receipts@);
                let layout = write_layout(st, w);
                match oversize::<TrailerFrame>(end, layout) {
                    Some(e) => r == Err::<Vec<u8>, Error>(e),
                    None => {
                        let bytes = done + rendered::<TrailerFrame>(end, layout);
                        if bytes.len() > crate::archive::max_archive() {
                            r == Err::<Vec<u8>, Error>(Error::ExportTooLarge)
                        } else {
                            r matches Ok(out) && out@ == bytes
                        }
                    },
                }
            },
        }
}

fn write_end(st: &NodeState, done: Vec<u8>, machine: Vec<u8>, owner: Vec<u8>, layout: Layout, w: Writer) -> (r: Result<Vec<u8>, Error>)
    requires
        layout == write_layout(st, w),
    ensures
        writes_end(st, done@, machine@, owner@, w, r),
{
    let ghost (m, o) = (machine@, owner@);
    let mut out = done;
    let directory = match seal_directory(st, w) {
        Ok(directory) => directory,
        Err(e) => {
            wipe(&mut out);
            return Err(e);
        },
    };
    let ghost d = directory@;
    let routes = match seal_routes(&st.channels.entries, w) {
        Ok(routes) => routes,
        Err(e) => {
            wipe(&mut out);
            return Err(e);
        },
    };
    let ghost rs = views(routes@);
    let receipts = match seal_receipts(st, w) {
        Ok(receipts) => receipts,
        Err(e) => {
            wipe(&mut out);
            let r: Result<Vec<u8>, Error> = Err(e);
            assert(writes_receipts(st, done@, m, o, d, rs, w, r));
            return r;
        },
    };
    let end = TrailerFrame { machine, owner, directory, routes, receipts };
    match end.put_into(&mut out, layout) {
        Ok(()) => {},
        Err(e) => {
            wipe(&mut out);
            let r: Result<Vec<u8>, Error> = Err(e);
            assert(writes_receipts(st, done@, m, o, d, rs, w, r));
            return r;
        },
    }
    if out.len() > 0x1000_0000 {
        wipe(&mut out);
        let r: Result<Vec<u8>, Error> = Err(Error::ExportTooLarge);
        assert(writes_receipts(st, done@, m, o, d, rs, w, r));
        return r;
    }
    let r: Result<Vec<u8>, Error> = Ok(out);
    assert(writes_receipts(st, done@, m, o, d, rs, w, r));
    r
}

/// How the writing of an archive comes out, part by part: the first part that
/// cannot be written is the answer.
pub open spec fn encodes(st: &NodeState, w: Writer, r: Result<Vec<u8>, Error>) -> bool {
    exists|journals: Result<Vec<u8>, Error>| #[trigger]
        writes_journals(st, w, journals) && match journals {
            Err(e) => r == Err::<Vec<u8>, Error>(e),
            Ok(done) => encodes_tail(st, done@, w, r),
        }
}

pub open spec fn encodes_tail(st: &NodeState, done: Seq<u8>, w: Writer, r: Result<Vec<u8>, Error>) -> bool {
    exists|tail: Result<Vec<u8>, Error>| #[trigger]
        writes_tail(st, done, w, tail) && match tail {
            Err(e) => r == Err::<Vec<u8>, Error>(e),
            Ok(done) => encodes_machine(st, done@, w, r),
        }
}

pub open spec fn encodes_machine(st: &NodeState, done: Seq<u8>, w: Writer, r: Result<Vec<u8>, Error>) -> bool {
    exists|machine: Result<Vec<u8>, Error>| #[trigger]
        seals_machine(st.application_inbox.machine_owned, *w.keys, *w.codec, machine) && match machine {
            Err(e) => r == Err::<Vec<u8>, Error>(e),
            Ok(machine) => encodes_owner(st, done, machine@, w, r),
        }
}

pub open spec fn encodes_owner(st: &NodeState, done: Seq<u8>, machine: Seq<u8>, w: Writer, r: Result<Vec<u8>, Error>) -> bool {
    exists|owner: Result<Vec<u8>, Error>| #[trigger]
        seals_owner(st, w, owner) && match owner {
            Err(e) => r == Err::<Vec<u8>, Error>(e),
            Ok(owner) => writes_end(st, done, machine, owner@, w, r),
        }
}

/// Whether nothing but the owner's clock differs.
pub open spec fn same_but_owner_clock(a: NodeState, b: NodeState) -> bool {
    same_but_clock(a.owner, b.owner) && b == (NodeState { owner: b.owner, ..a })
}

/// The owner's clock once the owner's record was written: as sealing it leaves it,
/// or untouched where there is nothing to seal.
pub open spec fn written_clock(a: NodeState, b: NodeState, wall_ms: u64, now: Instant) -> bool {
    if a.routing is Some && a.owner.client_relay.aliases@.len() == 0 {
        b.owner.owner_clock == a.owner.owner_clock
    } else {
        sealed_clock(a.owner, b.owner.owner_clock, wall_ms, now)
    }
}

/// The owner's clock after a state was written, or not: a refusal may come before
/// the owner's record is reached.
pub open spec fn clock_kept(a: NodeState, b: NodeState, wall_ms: u64, now: Instant, written: bool) -> bool {
    written_clock(a, b, wall_ms, now) || (!written && b.owner.owner_clock == a.owner.owner_clock)
}

fn seal_owner(st: &mut NodeState, keys: &NodeKeys, codec: &Codec, p: &Protocol, wall_ms: u64, now: Instant) -> (r: Result<Vec<u8>, Error>)
    requires
        old(st).owner.wf(),
    ensures
        final(st).owner.wf(),
        same_but_owner_clock(*old(st), *final(st)),
        written_clock(*old(st), *final(st), wall_ms, now),
        seals_owner(old(st), Writer { keys, codec, p, wall_ms, now, replaced: None }, r),
{
    if st.routing.is_some() && st.owner.client_relay.aliases.len() == 0 {
        return Ok(Vec::new());
    }
    st.owner.seal_current(wall_ms, now, keys, codec, p)
}

fn encode_state_inner(
    st: &mut NodeState,
    replaced: Option<(&Vec<u8>, &Snapshot)>,
    keys: &NodeKeys,
    codec: &Codec,
    p: &Protocol,
    wall_ms: u64,
    now: Instant,
) -> (r: Result<Vec<u8>, Error>)
    requires
        old(st).owner.wf(),
    ensures
        final(st).owner.wf(),
        same_but_owner_clock(*old(st), *final(st)),
        clock_kept(*old(st), *final(st), wall_ms, now, r is Ok),
        encodes(old(st), Writer { keys, codec, p, wall_ms, now, replaced }, r),
{
    let w = Writer { keys, codec, p, wall_ms, now, replaced };
    let ghost before = *st;
    let version: u8 = if is_credited(&*st, replaced) {
        21
    } else {
        19
    };
    let layout = layout_for(version, p);
    let done = match write_journals(&*st, w) {
        Ok(done) => done,
        Err(e) => {
            return Err(e);
        },
    };
    let ghost first_bytes = done@;
    let done = match write_tail(&*st, done, layout, w) {
        Ok(done) => done,
        Err(e) => {
            let r: Result<Vec<u8>, Error> = Err(e);
            assert(encodes_tail(&before, first_bytes, w, r));
            return r;
        },
    };
    let ghost second_bytes = done@;
    let machine = match seal_machine_ownership(st.application_inbox.machine_owned, keys, codec) {
        Ok(machine) => machine,
        Err(e) => {
            let r: Result<Vec<u8>, Error> = Err(e);
            assert(encodes_machine(&before, second_bytes, w, r));
            assert(encodes_tail(&before, first_bytes, w, r));
            return r;
        },
    };
    let ghost machine_bytes = machine@;
    let sealed = seal_owner(st, keys, codec, p, wall_ms, now);
    assert(seals_owner(&before, w, sealed));
    let r = match sealed {
        Ok(owner) => {
            let ghost o = owner@;
            proof {
                lemma_clock_does_not_matter(before, *st, w);
            }
            let r = write_end(&*st, done, machine, owner, layout, w);
            proof {
                lemma_end_without_clock(before, *st, second_bytes, machine_bytes, o, w, r);
            }
            r
        },
        Err(e) => Err(e),
    };
    assert(encodes_owner(&before, second_bytes, machine_bytes, w, r));
    assert(encodes_machine(&before, second_bytes, w, r));
    assert(encodes_tail(&before, first_bytes, w, r));
    r
}

/// The version that is written does not rest on the owner's clock.
proof fn lemma_clock_does_not_matter(a: NodeState, b: NodeState, w: Writer)
    requires
        same_but_owner_clock(a, b),
    ensures
        write_layout(&a, w) == write_layout(&b, w),
{
    assert(credited(a, w.replaced) == credited(b, w.replaced));
}

proof fn lemma_end_without_clock(
    a: NodeState,
    b: NodeState,
    done: Seq<u8>,
    machine: Seq<u8>,
    owner: Seq<u8>,
    w: Writer,
    r: Result<Vec<u8>, Error>,
)
    requires
        same_but_owner_clock(a, b),
        writes_end(&b, done, machine, owner, w, r),
    ensures
        writes_end(&a, done, machine, owner, w, r),
{
    lemma_clock_does_not_matter(a, b, w);
    assert(credited(a, w.replaced) == credited(b, w.replaced));
    let directory = choose|directory: Result<Vec<u8>, Error>| #[trigger]
        seals_directory(&b, w, directory) && match directory {
            Err(e) => r == Err::<Vec<u8>, Error>(e),
            Ok(directory) => match routes_refusal(b.channels.entries@, b.channels.entries@.len(), w) {
                Some(e) => r == Err::<Vec<u8>, Error>(e),
                None => exists|routes: Seq<RouteEntryView>| #[trigger]
                    routes_kept(b.channels.entries@, b.channels.entries@.len(), routes, w) && writes_receipts(
                        &b,
                        done,
                        machine,
                        owner,
                        directory@,
                        routes,
                        w,
                        r,
                    ),
            },
        };
    assert(seals_directory(&a, w, directory));
    if directory is Ok && routes_refusal(b.channels.entries@, b.channels.entries@.len(), w) is None {
        let d = directory->Ok_0@;
        let routes = choose|routes: Seq<RouteEntryView>| #[trigger]
            routes_kept(b.channels.entries@, b.channels.entries@.len(), routes, w) && writes_receipts(
                &b,
                done,
                machine,
                owner,
                d,
                routes,
                w,
                r,
            );
        assert(routes_kept(a.channels.entries@, a.channels.entries@.len(), routes, w));
        let receipts = choose|receipts: Result<Vec<u8>, Error>| #[trigger]
            seals_receipts(&b, w, receipts) && match receipts {
                Err(e) => r == Err::<Vec<u8>, Error>(e),
                Ok(receipts) => {
                    let end = end_entry(machine, owner, d, routes, receipts@);
                    let layout = write_layout(&b, w);
                    match oversize::<TrailerFrame>(end, layout) {
                        Some(e) => r == Err::<Vec<u8>, Error>(e),
                        None => {
                            let bytes = done + rendered::<TrailerFrame>(end, layout);
                            if bytes.len() > crate::archive::max_archive() {
                                r == Err::<Vec<u8>, Error>(Error::ExportTooLarge)
                            } else {
                                r matches Ok(out) && out@ == bytes
                            }
                        },
                    }
                },
            };
        assert(seals_receipts(&a, w, receipts));
        assert(writes_receipts(&a, done, machine, owner, d, routes, w, r));
    }
}

/// Writes the state of a node.
pub fn encode_state(st: &mut NodeState, keys: &NodeKeys, codec: &Codec, p: &Protocol, wall_ms: u64, now: Instant) -> (r: Result<Vec<u8>, Error>)
    requires
        old(st).owner.wf(),
    ensures
        final(st).owner.wf(),
        same_but_owner_clock(*old(st), *final(st)),
        clock_kept(*old(st), *final(st), wall_ms, now, r is Ok),
        encodes(old(st), Writer { keys, codec, p, wall_ms, now, replaced: None }, r),
{
    encode_state_inner(st, None, keys, codec, p, wall_ms, now)
}

/// Writes the state of a node with one session as it will be.
pub fn encode_state_with_session(
    st: &mut NodeState,
    override_peer: &Vec<u8>,
    override_state: &Snapshot,
    keys: &NodeKeys,
    codec: &Codec,
    p: &Protocol,
    wall_ms: u64,
    now: Instant,
) -> (r: Result<Vec<u8>, Error>)
    requires
        old(st).owner.wf(),
    ensures
        final(st).owner.wf(),
        same_but_owner_clock(*old(st), *final(st)),
        clock_kept(*old(st), *final(st), wall_ms, now, r is Ok),
        encodes(old(st), Writer { keys, codec, p, wall_ms, now, replaced: Some((override_peer, override_state)) }, r),
{
    encode_state_inner(st, Some((override_peer, override_state)), keys, codec, p, wall_ms, now)
}

} // verus!
