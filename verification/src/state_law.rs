//! What a node goes on with once its archive is taken up.

use vstd::prelude::*;
use crate::archive::{magic_version, ArchiveView, Reader};
use crate::archive_frame::{ChannelBodyView, MemberView, SessionView};
use crate::codec::{Codec, Protocol, RoleFacts};
use crate::error::Error;
use crate::legacy::{directory_of, last_session, legacies_at, legacy_decoded, legacy_is, member_route, place_of, renamed, route_by, sessions_over, LegacyArchiveView, LegacyChannel, LegacyReader};
use crate::model::{ChannelRoute, IpAddr, NodeInfo, OwnedAlias, OwnedChannelRouteView};
use crate::node_state::{ChannelState, DirectSessionState, NodeState, PendingDirect, PreparedChannelJoin};
use crate::owner_aliases::{observation, RestoreClock};
use crate::owner_state::{sealed_clock, OwnerState};
use crate::reopen::{first_unsettled, refuses, unsettled};
use crate::restore::{admitted, grants_of, receipts_of, sessions_refusal, OpenedSession};
use crate::restore_state::{direct_refusal, goes_on, grants_by, next_of, sessions_by, DirectParts, Host};
use crate::revive_channel::{commits_of, messages_of, originals_of, sighted};
use crate::table::Table;
use crate::time::Instant;

verus! {

proof fn lemma_next(s: Seq<([u8; 16], PendingDirect)>, n: nat)
    requires
        n <= s.len(),
    ensures
        next_of(s, n) >= 1,
        forall|i: int| 0 <= i < n ==> (#[trigger] s[i]).1.sequence < next_of(s, n) || s[i].1.sequence == u64::MAX,
        next_of(s, n) == 1 || exists|i: int| 0 <= i < n && {
            ||| (#[trigger] s[i]).1.sequence + 1 == next_of(s, n)
            ||| s[i].1.sequence == u64::MAX && next_of(s, n) == u64::MAX
        },
    decreases n,
{
    if n > 0 {
        lemma_next(s, (n - 1) as nat);
        let last = s[n - 1];
        if next_of(s, (n - 1) as nat) < next_of(s, n) {
            assert(last.1.sequence + 1 == next_of(s, n) || (last.1.sequence == u64::MAX && next_of(s, n) == u64::MAX));
        } else if next_of(s, n) != 1 {
            let i = choose|i: int| 0 <= i < n - 1 && {
                ||| (#[trigger] s[i]).1.sequence + 1 == next_of(s, (n - 1) as nat)
                ||| s[i].1.sequence == u64::MAX && next_of(s, (n - 1) as nat) == u64::MAX
            };
            assert(s[i].1.sequence + 1 == next_of(s, n) || (s[i].1.sequence == u64::MAX && next_of(s, n) == u64::MAX));
        }
    }
}

/// Messages are numbered on beyond what the node had, what the archive had, and every
/// message that waits, and no further than one of these calls for. The generation of
/// the node's card is the larger of the two.
pub proof fn numbers_go_on_beyond_both(
    st: NodeState,
    a: ArchiveView,
    parts: DirectParts,
    joins: Table<u64, PreparedChannelJoin>,
    channels: Table<String, ChannelState>,
    t: NodeState,
)
    requires
        goes_on(st, a, parts, joins, channels, t),
    ensures
        t.next_direct_sequence >= st.next_direct_sequence,
        t.next_direct_sequence >= a.core.head.next_direct_sequence,
        t.next_direct_sequence >= 1,
        forall|i: int|
            0 <= i < parts.pending.entries@.len() ==> (#[trigger] parts.pending.entries@[i]).1.sequence < t.next_direct_sequence
                || parts.pending.entries@[i].1.sequence == u64::MAX,
        ({
            ||| t.next_direct_sequence == st.next_direct_sequence
            ||| t.next_direct_sequence == a.core.head.next_direct_sequence
            ||| t.next_direct_sequence == 1
            ||| exists|i: int| 0 <= i < parts.pending.entries@.len() && {
                ||| (#[trigger] parts.pending.entries@[i]).1.sequence + 1 == t.next_direct_sequence
                ||| parts.pending.entries@[i].1.sequence == u64::MAX && t.next_direct_sequence == u64::MAX
            }
        }),
        t.local_contact_generation >= st.local_contact_generation,
        t.local_contact_generation >= a.core.head.local_contact_generation,
        t.local_contact_generation == st.local_contact_generation || t.local_contact_generation == a.core.head.local_contact_generation,
{
    lemma_next(parts.pending.entries@, parts.pending.entries@.len());
}

/// What the archive held takes the place of what the node had under the same key, and
/// all else that the node had stays; acknowledgements and taken frames follow those
/// that were there.
pub proof fn what_is_not_replaced_stays(
    st: NodeState,
    a: ArchiveView,
    parts: DirectParts,
    joins: Table<u64, PreparedChannelJoin>,
    channels: Table<String, ChannelState>,
    t: NodeState,
    peer: Seq<u8>,
    id: Seq<u8>,
    name: Seq<char>,
)
    requires
        goes_on(st, a, parts, joins, channels, t),
    ensures
        parts.sessions.has(peer) ==> t.sessions.lookup(peer) == parts.sessions.lookup(peer),
        !parts.sessions.has(peer) ==> t.sessions.lookup(peer) == st.sessions.lookup(peer),
        parts.states.has(peer) ==> t.session_states.lookup(peer) == parts.states.lookup(peer),
        !parts.states.has(peer) ==> t.session_states.lookup(peer) == st.session_states.lookup(peer),
        parts.cards.has(peer) ==> t.peer_routes.lookup(peer) == parts.cards.lookup(peer),
        !parts.cards.has(peer) ==> t.peer_routes.lookup(peer) == st.peer_routes.lookup(peer),
        parts.generations.has(peer) ==> t.peer_route_generations.lookup(peer) == parts.generations.lookup(peer),
        !parts.generations.has(peer) ==> t.peer_route_generations.lookup(peer) == st.peer_route_generations.lookup(peer),
        parts.pending.has(id) ==> t.pending_1to1.lookup(id) == parts.pending.lookup(id),
        !parts.pending.has(id) ==> t.pending_1to1.lookup(id) == st.pending_1to1.lookup(id),
        channels.has(name) ==> t.channels.lookup(name) == channels.lookup(name),
        !channels.has(name) ==> t.channels.lookup(name) == st.channels.lookup(name),
        t.direct_ack_outbox@.len() == st.direct_ack_outbox@.len() + parts.acks@.len(),
        forall|i: int| 0 <= i < st.direct_ack_outbox@.len() ==> t.direct_ack_outbox@[i] == #[trigger] st.direct_ack_outbox@[i],
        forall|i: int| 0 <= i < parts.acks@.len() ==> t.direct_ack_outbox@[st.direct_ack_outbox@.len() + i] == #[trigger] parts.acks@[i],
        t.processed_direct_order@.len() == st.processed_direct_order@.len() + a.core.processed.len(),
        t.owner == st.owner && t.routing == st.routing && t.gc2_sessions == st.gc2_sessions,
{
    assert(crate::model::views(t.processed_direct_order@).len() == t.processed_direct_order@.len());
    assert(crate::model::views(st.processed_direct_order@).len() == st.processed_direct_order@.len());
}

/// Direct traffic comes back only to a node whose inbox is untouched and whose sessions,
/// receipts and grants all come back, and for credited sessions only to one that holds
/// no direct traffic. What is wrong first is what is said.
pub proof fn direct_traffic_comes_back_to_a_fresh_node(st: NodeState, a: ArchiveView, lapsed: Vec<Vec<u8>>, h: Host)
    ensures
        ({
            let live = st.application_inbox.messages.next_sequence != 1 || crate::restore::owned(st.application_inbox);
            let sessions = sessions_refusal(a.core.sessions, a.core.sessions.len(), sessions_by(&lapsed, h));
            let receipts = receipts_of(a.receipts, a.core.sessions, h.migrated@, sessions_by(&lapsed, h));
            let grants = grants_of(a.policy.grants, a.policy.grants.len(), grants_by(h));
            let busy = st.gc2_sessions && (st.sessions.entries@.len() > 0 || st.pending_1to1.entries@.len() > 0 || st.direct_ack_outbox@.len() > 0
                || st.processed_direct.entries@.len() > 0);
            let r = direct_refusal(st, a, lapsed, h);
            &&& r is None <==> !live && sessions is None && receipts is Ok && grants is Ok && !busy
            &&& live ==> r == Some(Error::LiveInbox)
            &&& !live && sessions is Some ==> r == sessions
            &&& !live && sessions is None && receipts is Err ==> r == Some(receipts->Err_0)
            &&& !live && sessions is None && receipts is Ok && grants is Err ==> r == Some(grants->Err_0)
            &&& !live && sessions is None && receipts is Ok && grants is Ok && busy ==> r == Some(Error::LiveDirectState)
        }),
{
}

/// A member is reached by the route that is stored, or else by the first two contacts
/// of a stored card, for messages and for control, under the pseudonym of its name and
/// without a key, where that makes a valid route.
pub proof fn members_are_reached_as_stored(v: MemberView, role: RoleFacts, codec: Codec)
    ensures
        codec.route(v.route) matches Some(route) ==> member_route(v, role, codec) == Some(route),
        codec.route(v.route) is None ==> match member_route(v, role, codec) {
            Some(route) => {
                &&& role.named(v.member) == Some(route.pseudonym)
                &&& forall|i: int| 0 <= i < 32 ==> route.direct_public[i] == 0
                &&& codec.card(v.route) matches Some(info) && info.aliases.len() >= 2 && route.data == info.aliases[0] && route.control
                    == info.aliases[1]
                &&& codec.validates(route)
            },
            None => codec.card(v.route) matches Some(info) ==> (info.aliases.len() >= 2 ==> (role.named(v.member) matches Some(pseudonym) ==> !codec.validates(
                ChannelRoute {
                    pseudonym,
                    direct_public: crate::model::zeros::<32>(),
                    data: info.aliases[0],
                    control: info.aliases[1],
                },
            ))),
        },
{
}

proof fn lemma_directory(s: Seq<MemberView>, n: nat, role: RoleFacts, codec: Codec)
    requires
        n <= s.len(),
    ensures
        directory_of(s, n, role, codec) is Some <==> forall|i: int| 0 <= i < n ==> member_route(#[trigger] s[i], role, codec) is Some,
        directory_of(s, n, role, codec) matches Some(m) ==> {
            &&& forall|i: int|
                0 <= i < n && (forall|j: int| i < j < n ==> (#[trigger] s[j]).member != s[i].member) ==> m.dom().contains(
                    (#[trigger] s[i]).member,
                ) && m[s[i].member] == member_route(s[i], role, codec)->0
            &&& forall|k: Seq<char>| #[trigger] m.dom().contains(k) ==> exists|i: int| 0 <= i < n && (#[trigger] s[i]).member == k
        },
    decreases n,
{
    if n > 0 {
        lemma_directory(s, (n - 1) as nat, role, codec);
        let last = s[n - 1];
        if directory_of(s, n, role, codec) is Some {
            let m = directory_of(s, n, role, codec)->0;
            let before = directory_of(s, (n - 1) as nat, role, codec)->0;
            assert forall|i: int|
                0 <= i < n && (forall|j: int| i < j < n ==> (#[trigger] s[j]).member != s[i].member) implies m.dom().contains(
                (#[trigger] s[i]).member,
            ) && m[s[i].member] == member_route(s[i], role, codec)->0 by {
                if i < n - 1 {
                    assert(s[n - 1].member != s[i].member);
                    assert(before.dom().contains(s[i].member));
                }
            }
            assert forall|k: Seq<char>| #[trigger] m.dom().contains(k) implies exists|i: int| 0 <= i < n && (#[trigger] s[i]).member == k by {
                if k == last.member {
                    assert(s[n - 1].member == k);
                } else {
                    assert(before.dom().contains(k));
                }
            }
        }
    }
}

/// A directory of the first version knows every member by the last route stored under
/// its name and nobody else; one member who cannot be reached spoils it.
pub proof fn directories_know_every_member(s: Seq<MemberView>, role: RoleFacts, codec: Codec)
    ensures
        directory_of(s, s.len(), role, codec) is Some <==> forall|i: int| 0 <= i < s.len() ==> member_route(#[trigger] s[i], role, codec) is Some,
        directory_of(s, s.len(), role, codec) matches Some(m) ==> {
            &&& forall|i: int|
                0 <= i < s.len() && (forall|j: int| i < j < s.len() ==> (#[trigger] s[j]).member != s[i].member) ==> m.dom().contains(
                    (#[trigger] s[i]).member,
                ) && m[s[i].member] == member_route(s[i], role, codec)->0
            &&& forall|k: Seq<char>| #[trigger] m.dom().contains(k) ==> exists|i: int| 0 <= i < s.len() && (#[trigger] s[i]).member == k
        },
{
    lemma_directory(s, s.len(), role, codec);
}

proof fn lemma_last(s: Seq<SessionView>, n: nat, peer: Seq<u8>)
    requires
        n <= s.len(),
    ensures
        last_session(s, n, peer) is None <==> forall|i: int| 0 <= i < n ==> (#[trigger] s[i]).peer != peer,
        forall|i: int|
            0 <= i < n && (#[trigger] s[i]).peer == peer && (forall|j: int| i < j < n ==> (#[trigger] s[j]).peer != peer) ==> last_session(
                s,
                n,
                peer,
            ) == Some(s[i].sealed),
    decreases n,
{
    if n > 0 {
        lemma_last(s, (n - 1) as nat, peer);
        let last = s[n - 1];
        if last.peer == peer {
            assert(s[n - 1].peer == peer);
        }
    }
}

/// The last session with a peer in an archive of the first version takes the place of
/// the one that the node had and is established; other peers' sessions stay.
pub proof fn the_last_session_with_a_peer_counts(
    st: NodeState,
    s: Seq<SessionView>,
    opened: Table<Vec<u8>, OpenedSession>,
    t: NodeState,
    i: int,
    peer: Seq<u8>,
)
    requires
        sessions_over(st, s, s.len(), opened, t),
        0 <= i < s.len(),
        forall|j: int| i < j < s.len() ==> (#[trigger] s[j]).peer != s[i].peer,
    ensures
        t.sessions.lookup(s[i].peer) matches Some(x) && x.sealed@ == opened.at(s[i].sealed).sealed@ && x.tag == opened.at(s[i].sealed).tag,
        t.session_states.lookup(s[i].peer) == Some(DirectSessionState::Established),
        (forall|j: int| 0 <= j < s.len() ==> (#[trigger] s[j]).peer != peer) ==> t.sessions.lookup(peer) == st.sessions.lookup(peer)
            && t.session_states.lookup(peer) == st.session_states.lookup(peer),
{
    lemma_last(s, s.len(), s[i].peer);
    lemma_last(s, s.len(), peer);
    assert(last_session(s, s.len(), s[i].peer) == Some(s[i].sealed));
    let x = t.sessions.lookup(s[i].peer);
    let y = t.sessions.lookup(peer);
}

proof fn lemma_place_of(s: Seq<(String, ChannelRoute)>, pseudonym: [u8; 32], n: nat)
    requires
        n <= s.len(),
    ensures
        match place_of(s, pseudonym, n) {
            Some(i) => 0 <= i < n && s[i].1.pseudonym == pseudonym && forall|j: int| 0 <= j < i ==> (#[trigger] s[j]).1.pseudonym != pseudonym,
            None => forall|j: int| 0 <= j < n ==> (#[trigger] s[j]).1.pseudonym != pseudonym,
        },
    decreases n,
{
    if n > 0 {
        lemma_place_of(s, pseudonym, (n - 1) as nat);
    }
}

/// A channel of the first version comes back as private, with its new route, with the
/// role that it had, and with nothing that waits. Its directory names the new route
/// where it first named the node, if that route is valid, and is else as it was.
pub proof fn first_channels_come_back_bare(
    c: LegacyChannel,
    pseudonym: [u8; 32],
    own: OwnedChannelRouteView,
    codec: Codec,
    t: ChannelState,
    i: int,
    k: Seq<char>,
)
    requires
        legacy_is(c, pseudonym, own, codec, t),
        0 <= i < c.directory.entries@.len(),
        forall|j: int| 0 <= j < i ==> (#[trigger] c.directory.entries@[j]).1.pseudonym != pseudonym,
    ensures
        !t.public && t.owner == c.head.owner && t.blob@ == c.head.blob@,
        t.own_route@ == own && t.previous_own_route is None,
        c.directory.entries@[i].1.pseudonym == pseudonym && codec.validates(own.public) ==> t.directory.lookup(c.directory.entries@[i].0@)
            == Some(own.public),
        c.directory.entries@[i].1.pseudonym == pseudonym && k != c.directory.entries@[i].0@ ==> t.directory.lookup(k) == c.directory.lookup(k),
        !codec.validates(own.public) ==> t.directory == c.directory,
        c.directory.entries@[i].1.pseudonym == pseudonym ==> route_by(c.directory, pseudonym) == Some(c.directory.entries@[i].1),
        t.message_outbox.entries@.len() == 0 && t.membership_outbox is None && t.pending_control@.len() == 0,
        t.admission_cache.entries@.len() == 0 && t.completed_removals@.len() == 0 && t.commit_ack_cache.entries@.len() == 0,
        t.unrouted_ack_journal.entries@.len() == 0 && t.invites.entries@.len() == 0,
        t.admission_cache_order@.len() == 0 && t.commit_ack_order@.len() == 0 && t.unrouted_ack_order@.len() == 0 && t.invite_order@.len() == 0,
{
    lemma_place_of(c.directory.entries@, pseudonym, c.directory.entries@.len());
    assert(renamed(c.directory, pseudonym, own.public, codec, t.directory));
    let x = t.directory.lookup(c.directory.entries@[i].0@);
    let y = t.directory.lookup(k);
}

proof fn lemma_legacies(buf: Seq<u8>, at: int, n: nat, d: LegacyReader)
    requires
        legacies_at(buf, at, n, d) is Ok,
    ensures
        (legacies_at(buf, at, n, d)->Ok_0).0.len() == n,
    decreases n,
{
    if n > 0 {
        lemma_legacies(buf, at, (n - 1) as nat, d);
    }
}

/// An archive of the first version says so, is long enough for its two counts, holds
/// sessions that decode, and no more channels than the node takes.
pub proof fn first_archives_hold_sessions_and_channels(buf: Seq<u8>, d: LegacyReader)
    ensures
        legacy_decoded(buf, d) matches Ok(a) ==> {
            &&& magic_version(buf) == Some(1u8)
            &&& buf.len() >= 14
            &&& forall|i: int|
                0 <= i < a.sessions.len() ==> crate::model::views(d.codec.plain_sessions@).contains((#[trigger] a.sessions[i]).sealed)
            &&& a.channels.len() <= d.p.channel_max
        },
        magic_version(buf) != Some(1u8) ==> legacy_decoded(buf, d) == Err::<LegacyArchiveView, Error>(Error::NotAnExport),
{
    if legacy_decoded(buf, d) is Ok {
        let (sessions, q) = crate::legacy::reads_list::<crate::archive_frame::SessionFrame>(crate::legacy::first_layout(), 8192, buf, 6)->0;
        let (n, at) = crate::archive::count_at(buf, q, d.p.channel_max as nat)->0;
        lemma_legacies(buf, at, n, d);
    }
}

/// An address is loopback where its first byte is 127, or where it is the one of sixteen
/// bytes that is nought but for a last byte of one; it is unspecified where it is nought.
pub proof fn addresses_are_told_by_their_bytes(four: [u8; 4], sixteen: [u8; 16])
    ensures
        IpAddr::V4(four).spec_loopback() <==> four[0] == 127,
        IpAddr::V6(sixteen).spec_loopback() <==> sixteen[15] == 1 && forall|i: int| 0 <= i < 15 ==> sixteen[i] == 0,
        IpAddr::V4(four).spec_unspecified() <==> four[0] == 0 && four[1] == 0 && four[2] == 0 && four[3] == 0,
        IpAddr::V6(sixteen).spec_unspecified() <==> forall|i: int| 0 <= i < 16 ==> sixteen[i] == 0,
{
    let address = IpAddr::V6(sixteen);
    if address.spec_unspecified() {
        assert forall|i: int| 0 <= i < 16 implies sixteen[i] == 0 by {
            assert((address->V6_0)[i] == 0);
        }
    }
    if forall|i: int| 0 <= i < 16 ==> sixteen[i] == 0 {
        assert(address.spec_unspecified());
    }
}

/// A card's first contact is for messages and its second for control. Two operations
/// have the same authority where contact, capabilities and limits are the same,
/// whatever their path and lease.
pub proof fn a_card_has_two_contacts(card: NodeInfo, one: OwnedAlias, other: OwnedAlias, aliases: Seq<OwnedAlias>, i: int)
    requires
        0 <= i < aliases.len(),
    ensures
        card.aliases@.len() > 0 ==> card.spec_primary() == Some(card.aliases@[0]),
        card.aliases@.len() == 0 ==> card.spec_primary() is None,
        card.aliases@.len() > 1 ==> card.spec_control() == Some(card.aliases@[1]),
        card.aliases@.len() <= 1 ==> card.spec_control() is None,
        one.spec_same_authority(other) <==> one.contact == other.contact && one.capabilities == other.capabilities && one.limits == other.limits,
        crate::model::contacts_of(aliases).len() == aliases.len(),
        crate::model::contacts_of(aliases)[i] == aliases[i].contact,
{
}

/// What a channel has seen before it was archived is known as seen: every message that
/// waits, the commit that waits, every commit acknowledged, and every message whose
/// acknowledgement has no route; and nothing else is.
pub proof fn what_was_seen_is_known_as_seen(v: ChannelBodyView, id: [u8; 16])
    ensures
        sighted(v).contains(id) <==> {
            ||| exists|i: int| 0 <= i < v.outbox.messages.len() && same_message((#[trigger] v.outbox.messages[i]).message_id, id)
            ||| (v.outbox.membership is Some && same_message(v.outbox.membership->0.commit_id, id))
            ||| exists|i: int| 0 <= i < v.ledger.commit_acks.len() && same_message((#[trigger] v.ledger.commit_acks[i]).message_id, id)
            ||| exists|i: int| 0 <= i < v.ledger.unrouted.len() && same_message((#[trigger] v.ledger.unrouted[i]).original_id, id)
        },
{
    let a = messages_of(v.outbox.messages);
    let b = match v.outbox.membership {
        Some(m) => seq![m.commit_id],
        None => Seq::empty(),
    };
    let c = commits_of(v.ledger.commit_acks);
    let d = originals_of(v.ledger.unrouted);
    let s = sighted(v);
    assert(s == a + b + c + d);
    if s.contains(id) {
        let k = choose|k: int| 0 <= k < s.len() && s[k] == id;
        if k < a.len() {
            assert(same_message(v.outbox.messages[k].message_id, id));
        } else if k < a.len() + b.len() {
            assert(b[k - a.len()] == id);
        } else if k < a.len() + b.len() + c.len() {
            let i = k - a.len() - b.len();
            assert(c[i] == id);
            assert(same_message(v.ledger.commit_acks[i].message_id, id));
        } else {
            let i = k - a.len() - b.len() - c.len();
            assert(d[i] == id);
            assert(same_message(v.ledger.unrouted[i].original_id, id));
        }
    }
    if exists|i: int| 0 <= i < v.outbox.messages.len() && same_message((#[trigger] v.outbox.messages[i]).message_id, id) {
        let i = choose|i: int| 0 <= i < v.outbox.messages.len() && same_message((#[trigger] v.outbox.messages[i]).message_id, id);
        assert(s[i] == id);
    }
    if v.outbox.membership is Some && same_message(v.outbox.membership->0.commit_id, id) {
        assert(s[a.len() as int] == id);
    }
    if exists|i: int| 0 <= i < v.ledger.commit_acks.len() && same_message((#[trigger] v.ledger.commit_acks[i]).message_id, id) {
        let i = choose|i: int| 0 <= i < v.ledger.commit_acks.len() && same_message((#[trigger] v.ledger.commit_acks[i]).message_id, id);
        assert(s[a.len() + b.len() + i] == id);
    }
    if exists|i: int| 0 <= i < v.ledger.unrouted.len() && same_message((#[trigger] v.ledger.unrouted[i]).original_id, id) {
        let i = choose|i: int| 0 <= i < v.ledger.unrouted.len() && same_message((#[trigger] v.ledger.unrouted[i]).original_id, id);
        assert(s[a.len() + b.len() + c.len() + i] == id);
    }
}

/// Whether two identifiers of messages are the same.
pub open spec fn same_message(a: [u8; 16], b: [u8; 16]) -> bool {
    a == b
}

/// A clock that starts at a reading tells that reading's time, has granted nothing, and
/// refuses any reading before it.
pub proof fn a_new_clock_starts_at_its_reading(clock: RestoreClock, wall_ms: u64, now: Instant, later_ms: u64, later: Instant)
    requires
        clock.set_at(wall_ms, now),
    ensures
        observation(clock, wall_ms, now) == Ok::<u64, Error>(wall_ms),
        later_ms < wall_ms ==> observation(clock, later_ms, later) == Err::<u64, Error>(Error::ClockRegressed),
        later.nanos < now.nanos ==> observation(clock, later_ms, later) == Err::<u64, Error>(Error::ClockRegressed),
        later_ms >= wall_ms ==> observation(clock, later_ms, now) == Ok::<u64, Error>(later_ms),
        clock.activation is None && clock.limits.entries@.len() == 0,
{
}

/// Once the live record is sealed the clock has noted the reading, where it is taken,
/// and goes on from where it started; a reading that is refused leaves it as it was.
pub proof fn sealing_notes_the_reading(st: OwnerState, after: RestoreClock, wall_ms: u64, now: Instant)
    requires
        sealed_clock(st, after, wall_ms, now),
    ensures
        after.start == st.owner_clock.start && after.wall_start_ms == st.owner_clock.wall_start_ms,
        observation(st.owner_clock, wall_ms, now) matches Ok(effective) ==> after.last_wall_ms == wall_ms && after.last_instant == now
            && after.last_effective_ms == effective,
        observation(st.owner_clock, wall_ms, now) is Err ==> after == st.owner_clock,
{
}

/// An archive that cannot be read is refused for that reason alone; one that reads, all
/// of whose routes settle and whose direct traffic comes back, is refused for none.
pub proof fn archives_are_refused_for_a_reason(st: NodeState, buf: Seq<u8>, h: Host, p: &Protocol, e: Error)
    ensures
        admitted(st, buf, Reader { keys: h.keys, codec: h.codec, p }) matches Err(why) ==> (refuses(st, buf, h, p, e) <==> e == why),
        admitted(st, buf, Reader { keys: h.keys, codec: h.codec, p }) matches Ok(a) ==> ((forall|i: int|
            0 <= i < a.channels.len() ==> !#[trigger] unsettled(a, i, h, p)) && (forall|lapsed: Vec<Vec<u8>>| #[trigger]
            direct_refusal(st, a, lapsed, h) is None) ==> !refuses(st, buf, h, p, e)),
{
    if admitted(st, buf, Reader { keys: h.keys, codec: h.codec, p }) is Ok {
        let a = admitted(st, buf, Reader { keys: h.keys, codec: h.codec, p })->Ok_0;
        if forall|i: int| 0 <= i < a.channels.len() ==> !#[trigger] unsettled(a, i, h, p) {
            assert forall|i: int| 0 <= i < a.channels.len() implies !#[trigger] first_unsettled(a, i, e, h, p) by {
                assert(!unsettled(a, i, h, p));
            }
        }
    }
}

} // verus!
