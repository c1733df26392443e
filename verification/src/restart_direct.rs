//! What a node's direct traffic and policy keep over a restart.

use vstd::prelude::*;
use crate::archive::{decoded, ArchiveView, Reader};
use crate::archive_check::is_credited;
use crate::archive_frame::{PeerRouteFrame, PendingFrame, ProcessedFrame, SealedView, SessionFrame, SessionView};
use crate::archive_item::{entries_of, millis_left, Stored};
use crate::archive_law::{archive_reads_back, readable, reader, restored};
use crate::archive_write::{channels_writing, core_entry, core_refusal, encodes, encodes_tail, grants_kept, journals_refusal, writes_journals, writing, Writer};
use crate::codec::cards_read_as_written;
use crate::error::Error;
use crate::model::{views, NodeInfoView};
use crate::node_state::{DirectDelivery, DirectSessionState, NodeState};
use crate::record::{bytes_view, maybe_view};
use crate::reopen::{reopens, Reopened};
use crate::restart_channel::{every_item_has_its_entry, no_item_is_refused};
use crate::restore::{admitted, Sessions, States};
use crate::restore_state::{goes_on, Host};
use crate::revive::{countable, delivers, elapsed_since, lapsed_of, left_of, Cards, Generations, Live, Reviving};
use crate::route_work::run_out;

verus! {

/// What stands at both ends of a restart: a node whose archive was written, read,
/// made ready by a host with the same codecs, and put in place.
pub open spec fn restarts(st: &NodeState, w: Writer, bytes: Vec<u8>, node: NodeState, h: Host, t: Reopened, u: NodeState) -> bool {
    &&& encodes(st, w, Ok(bytes))
    &&& readable(st, w)
    &&& w.codec.public_cards.wf()
    &&& h.keys == w.keys
    &&& h.codec == w.codec
    &&& countable(h.now)
    &&& admitted(node, bytes@, Reader { keys: h.keys, codec: h.codec, p: w.p }) == Ok::<ArchiveView, Error>(t.archive@)
    &&& reopens(node, t.archive@, h, w.p, t)
    &&& goes_on(node, t.archive@, t.parts, t.joins, t.channels, u)
}

proof fn lemma_archive(st: &NodeState, w: Writer, bytes: Vec<u8>, node: NodeState, h: Host, t: Reopened, u: NodeState) -> (grants: Seq<SealedView>)
    requires
        restarts(st, w, bytes, node, h, t, u),
    ensures
        t.archive@ == restored(st, grants, w),
        core_refusal(st, w) is None,
        grants_kept(st.forward_grants@, grants, w),
{
    archive_reads_back(st, w, bytes);
    let journals = choose|journals: Result<Vec<u8>, Error>| #[trigger]
        writes_journals(st, w, journals) && match journals {
            Err(e) => Ok::<Vec<u8>, Error>(bytes) == Err::<Vec<u8>, Error>(e),
            Ok(done) => encodes_tail(st, done@, w, Ok(bytes)),
        };
    assert(journals_refusal(st, w) is None);
    choose|grants: Seq<SealedView>| #[trigger]
        grants_kept(st.forward_grants@, grants, w) && decoded(bytes@, reader(w)) == Ok::<ArchiveView, Error>(restored(st, grants, w))
}

proof fn lemma_lapsed(s: Seq<SessionView>, n: nat, elapsed_ms: u64, peer: Seq<u8>)
    requires
        n <= s.len(),
    ensures
        lapsed_of(s, n, elapsed_ms).contains(peer) <==> exists|i: int|
            0 <= i < n && (#[trigger] s[i]).peer == peer && !is_credited(s[i].sealed) && s[i].unconfirmed is Some && s[i].unconfirmed->0
                <= elapsed_ms,
    decreases n,
{
    if n > 0 {
        let m = (n - 1) as nat;
        lemma_lapsed(s, m, elapsed_ms, peer);
        let before = lapsed_of(s, m, elapsed_ms);
        let now = lapsed_of(s, n, elapsed_ms);
        if before.contains(peer) {
            assert(now[before.index_of(peer)] == peer);
        }
        if now.len() > before.len() {
            assert(now[before.len() as int] == s[m as int].peer);
        }
        if now.contains(peer) && now.index_of(peer) < before.len() {
            assert(before[now.index_of(peer)] == peer);
        }
        if s[m as int].peer == peer {
            assert(s[m as int].peer == peer);
        }
    }
}

/// A session has lapsed exactly where it was begun without credit, was not confirmed,
/// and the time to confirm it ran out meanwhile.
pub proof fn only_unconfirmed_sessions_lapse(s: Seq<SessionView>, elapsed_ms: u64, peer: Seq<u8>)
    ensures
        lapsed_of(s, s.len(), elapsed_ms).contains(peer) <==> exists|i: int|
            0 <= i < s.len() && (#[trigger] s[i]).peer == peer && !is_credited(s[i].sealed) && s[i].unconfirmed is Some
                && s[i].unconfirmed->0 <= elapsed_ms,
{
    lemma_lapsed(s, s.len(), elapsed_ms, peer);
}

/// An archive is as old as the wall clock says; one from the future counts as older
/// than anything. What is left of a span is what exceeds that age.
pub proof fn spans_shrink_by_the_age(exported_ms: u64, wall_ms: u64, ms: u64)
    ensures
        wall_ms >= exported_ms ==> elapsed_since(exported_ms, wall_ms) == wall_ms - exported_ms,
        wall_ms < exported_ms ==> left_of(ms, elapsed_since(exported_ms, wall_ms)) == 0,
        wall_ms >= exported_ms && ms >= wall_ms - exported_ms ==> left_of(ms, elapsed_since(exported_ms, wall_ms)) == ms - (wall_ms
            - exported_ms),
        wall_ms >= exported_ms && ms < wall_ms - exported_ms ==> left_of(ms, elapsed_since(exported_ms, wall_ms)) == 0,
{
}

/// What is left until a moment is told in whole milliseconds, and never as more than
/// is left.
pub proof fn time_left_is_never_overstated(deadline: crate::time::Instant, now: crate::time::Instant)
    ensures
        deadline.nanos <= now.nanos ==> millis_left(deadline, now) == 0,
        deadline.nanos > now.nanos ==> now.nanos + millis_left(deadline, now) * 1_000_000 <= deadline.nanos,
        deadline.nanos > now.nanos && millis_left(deadline, now) < u64::MAX ==> deadline.nanos < now.nanos + (millis_left(deadline, now) + 1)
            * 1_000_000,
{
}

/// Whether a session with a peer is still on after a restart: it was confirmed, or it
/// is credited, or there is time left to confirm it.
pub open spec fn goes_on_with(st: &NodeState, w: Writer, h: Host, i: int) -> bool {
    let (peer, session) = st.sessions.entries@[i];
    let sealed = match w.replaced {
        Some((p, snapshot)) if p@ == peer@ => snapshot.bytes@,
        _ => session.sealed@,
    };
    is_credited(sealed) || match st.session_states.lookup(peer@) {
        Some(DirectSessionState::InitiatedUnconfirmed { expires }) => w.wall_ms <= h.wall_ms && millis_left(expires, w.now) > h.wall_ms
            - w.wall_ms,
        _ => true,
    }
}

/// From end to end: a session that was confirmed, that is credited, or that may still
/// be confirmed comes back, as the host opened what was written of it; and it is as
/// far confirmed as it was, with the time that is left.
pub proof fn sessions_survive_a_restart(st: &NodeState, w: Writer, bytes: Vec<u8>, node: NodeState, h: Host, t: Reopened, u: NodeState, i: int)
    requires
        restarts(st, w, bytes, node, h, t, u),
        st.sessions.wf(),
        0 <= i < st.sessions.entries@.len(),
        goes_on_with(st, w, h, i),
        !(w.wall_ms > h.wall_ms && st.session_states.lookup(st.sessions.entries@[i].0@) is Some && st.session_states.lookup(
            st.sessions.entries@[i].0@,
        )->0 is InitiatedUnconfirmed),
    ensures
        ({
            let (peer, session) = st.sessions.entries@[i];
            let sealed = match w.replaced {
                Some((p, snapshot)) if p@ == peer@ => snapshot.bytes@,
                _ => session.sealed@,
            };
            let o = h.opened.at(sealed);
            &&& u.sessions.lookup(peer@) matches Some(after) && after.sealed@ == o.sealed@ && after.tag == o.tag && after.usage == o.usage
            &&& match (st.session_states.lookup(peer@), u.session_states.lookup(peer@)) {
                (Some(DirectSessionState::InitiatedUnconfirmed { expires }), Some(DirectSessionState::InitiatedUnconfirmed { expires: until })) => {
                    until.nanos - h.now.nanos == (if millis_left(expires, w.now) > h.wall_ms - w.wall_ms {
                        (millis_left(expires, w.now) - (h.wall_ms - w.wall_ms)) * 1_000_000
                    } else {
                        0
                    })
                },
                (Some(DirectSessionState::InitiatedUnconfirmed { .. }), _) => false,
                (_, Some(DirectSessionState::Established)) => true,
                _ => false,
            }
        }),
{
    let grants = lemma_archive(st, w, bytes, node, h, t, u);
    let s = st.sessions.entries@;
    let e = writing(st, w);
    every_item_has_its_entry(s, s.len(), e);
    let v = core_entry(st, w).sessions;
    assert(v[i] == s[i].entry(e));
    let elapsed = elapsed_since(w.wall_ms, h.wall_ms);
    let peer = s[i].0@;
    lemma_lapsed(v, v.len(), elapsed, peer);
    assert forall|j: int| 0 <= j < v.len() && (#[trigger] v[j]).peer == peer implies j == i by {
        assert(v[j] == s[j].entry(e));
        assert(st.sessions.keys()[j] == peer);
        assert(st.sessions.keys()[i] == peer);
    }
    assert(!views(t.parts.lapsed@).contains(peer));
    let by = Sessions { opened: h.opened, lapsed: &t.parts.lapsed };
    assert(<SessionFrame as Live<Sessions>>::kept(v[i], by));
    assert(<SessionFrame as Live<Sessions>>::key(v[i]) == peer);
    let at = States { lapsed: &t.parts.lapsed, now: h.now, elapsed_ms: elapsed };
    assert(<SessionFrame as Live<States>>::kept(v[i], at));
    assert(<SessionFrame as Live<States>>::key(v[i]) == peer);
    assert(t.parts.sessions.lookup(peer) is Some);
    assert(t.parts.states.lookup(peer) is Some);
    assert(u.sessions.lookup(peer) == t.parts.sessions.lookup(peer));
    assert(u.session_states.lookup(peer) == t.parts.states.lookup(peer));
    let ms = left_of(v[i].unconfirmed->0, elapsed);
    assert(ms * 1_000_000 <= u64::MAX * 1_000_000) by (nonlinear_arith)
        requires
            ms <= u64::MAX,
    ;
}

/// From end to end: the cards of peers come back, without what only their owner knows,
/// and so does the generation of each, or the first where none was known.
pub proof fn cards_survive_a_restart(st: &NodeState, w: Writer, bytes: Vec<u8>, node: NodeState, h: Host, t: Reopened, u: NodeState, i: int)
    requires
        restarts(st, w, bytes, node, h, t, u),
        0 <= i < st.peer_routes.entries@.len(),
    ensures
        ({
            let (peer, card) = st.peer_routes.entries@[i];
            &&& u.peer_routes.lookup(peer@) matches Some(after) && after@ == (NodeInfoView { provisioning: None, ..card@ })
            &&& u.peer_route_generations.lookup(peer@) == (match st.peer_route_generations.lookup(peer@) {
                Some(n) => Some(n),
                None => Some(0u64),
            })
        }),
{
    let grants = lemma_archive(st, w, bytes, node, h, t, u);
    let s = st.peer_routes.entries@;
    let e = writing(st, w);
    every_item_has_its_entry(s, s.len(), e);
    no_item_is_refused(s, s.len(), e, i);
    let v = core_entry(st, w).peer_routes;
    assert(v[i] == s[i].entry(e));
    cards_read_as_written(*w.codec, s[i].1@);
    let peer = s[i].0@;
    let by = Cards { codec: h.codec };
    let gen = Generations { codec: h.codec };
    assert(<PeerRouteFrame as Live<Cards>>::kept(v[i], by));
    assert(<PeerRouteFrame as Live<Cards>>::key(v[i]) == peer);
    assert(<PeerRouteFrame as Live<Generations>>::kept(v[i], gen));
    assert(<PeerRouteFrame as Live<Generations>>::key(v[i]) == peer);
    assert(t.parts.cards.lookup(peer) is Some);
    assert(t.parts.generations.lookup(peer) is Some);
    assert(u.peer_routes.lookup(peer) == t.parts.cards.lookup(peer));
    assert(u.peer_route_generations.lookup(peer) == t.parts.generations.lookup(peer));
}

/// Whether cells go on to the peer that they went to, through the relay that the node
/// now has.
pub open spec fn goes_on_to(before: DirectDelivery, node: NodeState, after: DirectDelivery) -> bool {
    &&& after.peer@ == (NodeInfoView { provisioning: None, ..before.peer@ })
    &&& after.relay@ == node.owner.client_relay@
    &&& views(after.cells@) == views(before.cells@)
}

/// From end to end: the acknowledgements that wait come back in their order, after
/// those that the node has already, to the same peers with the same cells.
pub proof fn acknowledgements_survive_a_restart(st: &NodeState, w: Writer, bytes: Vec<u8>, node: NodeState, h: Host, t: Reopened, u: NodeState)
    requires
        restarts(st, w, bytes, node, h, t, u),
    ensures
        u.direct_ack_outbox@.len() == node.direct_ack_outbox@.len() + st.direct_ack_outbox@.len(),
        forall|i: int| 0 <= i < node.direct_ack_outbox@.len() ==> #[trigger] u.direct_ack_outbox@[i] == node.direct_ack_outbox@[i],
        forall|i: int|
            0 <= i < st.direct_ack_outbox@.len() ==> goes_on_to(
                #[trigger] st.direct_ack_outbox@[i],
                node,
                u.direct_ack_outbox@[node.direct_ack_outbox@.len() + i],
            ),
{
    let grants = lemma_archive(st, w, bytes, node, h, t, u);
    let s = st.direct_ack_outbox@;
    let e = writing(st, w);
    every_item_has_its_entry(s, s.len(), e);
    let v = core_entry(st, w).acks;
    let elapsed_ms = elapsed_since(w.wall_ms, h.wall_ms);
    let by = Reviving { codec: h.codec, relay: &node.owner.client_relay, now: h.now, elapsed_ms, lapsed: &t.parts.lapsed };
    assert forall|i: int| 0 <= i < s.len() implies goes_on_to(
        #[trigger] s[i],
        node,
        u.direct_ack_outbox@[node.direct_ack_outbox@.len() + i],
    ) by {
        no_item_is_refused(s, s.len(), e, i);
        assert(v[i] == s[i].entry(e));
        cards_read_as_written(*w.codec, s[i].peer@);
        assert(delivers(v[i], by, t.parts.acks@[i]));
        assert(u.direct_ack_outbox@[node.direct_ack_outbox@.len() + i] == t.parts.acks@[i]);
    }
}

/// From end to end: a frame that was taken stays known by its digest, with the answer
/// that it was given; and the order in which frames were taken stays.
pub proof fn taken_frames_survive_a_restart(st: &NodeState, w: Writer, bytes: Vec<u8>, node: NodeState, h: Host, t: Reopened, u: NodeState, i: int)
    requires
        restarts(st, w, bytes, node, h, t, u),
        0 <= i < st.processed_direct_order@.len(),
    ensures
        ({
            let key = st.processed_direct_order@[i];
            &&& st.processed_direct.lookup(key@) matches Some(before) && (u.processed_direct.lookup(key@) matches Some(after)
                && after.frame_hash == before.frame_hash && goes_on_to(before.delivery, node, after.delivery))
        }),
        views(u.processed_direct_order@) == views(node.processed_direct_order@) + views(st.processed_direct_order@),
{
    let grants = lemma_archive(st, w, bytes, node, h, t, u);
    let s = st.processed_direct_order@;
    let e = writing(st, w);
    every_item_has_its_entry(s, s.len(), e);
    no_item_is_refused(s, s.len(), e, i);
    let v = core_entry(st, w).processed;
    assert(v[i] == s[i].entry(e));
    let before = st.processed_direct.lookup(s[i]@)->0;
    cards_read_as_written(*w.codec, before.delivery.peer@);
    let elapsed_ms = elapsed_since(w.wall_ms, h.wall_ms);
    let by = Reviving { codec: h.codec, relay: &node.owner.client_relay, now: h.now, elapsed_ms, lapsed: &t.parts.lapsed };
    assert(<ProcessedFrame as Live<Reviving>>::kept(v[i], by));
    assert(<ProcessedFrame as Live<Reviving>>::key(v[i]) == s[i]@);
    assert(t.parts.processed.lookup(s[i]@) is Some);
    assert(u.processed_direct.lookup(s[i]@) == t.parts.processed.lookup(s[i]@));
    let a = t.archive@;
    let added = Seq::new(a.core.processed.len(), |j: int| (a.core.processed[j].peer, a.core.processed[j].counter));
    assert(added =~= views(s)) by {
        assert forall|j: int| 0 <= j < s.len() implies added[j] == views(s)[j] by {
            assert(v[j] == s[j].entry(e));
        }
    }
}

proof fn lemma_kept_entry<W: Copy, S: Stored<W>>(s: Seq<S>, n: nat, w: W, i: int) -> (j: int)
    requires
        0 <= i < n <= s.len(),
        s[i].kept(w),
    ensures
        0 <= j < entries_of(s, n, w).len(),
        entries_of(s, n, w)[j] == s[i].entry(w),
    decreases n,
{
    if i == n - 1 {
        entries_of(s, (n - 1) as nat, w).len() as int
    } else {
        lemma_kept_entry(s, (n - 1) as nat, w, i)
    }
}

/// From end to end: a message that waits, is not volatile and has time left comes
/// back, to the same peer, as the same record under the same number. It expires when
/// it would have, to the millisecond, and is tried when it would have been, or at
/// once where that is past.
pub proof fn waiting_messages_keep_their_time(st: &NodeState, w: Writer, bytes: Vec<u8>, node: NodeState, h: Host, t: Reopened, u: NodeState, i: int)
    requires
        restarts(st, w, bytes, node, h, t, u),
        0 <= i < st.pending_1to1.entries@.len(),
        w.wall_ms <= h.wall_ms,
        ({
            let (id, before) = st.pending_1to1.entries@[i];
            &&& before.logical_record matches Some(record) ==> !w.codec.is_volatile(record@)
            &&& millis_left(before.expires, w.now) > h.wall_ms - w.wall_ms
            &&& !views(t.parts.lapsed@).contains(before.delivery.peer.identity_pk@)
        }),
    ensures
        ({
            let (id, before) = st.pending_1to1.entries@[i];
            let age = h.wall_ms - w.wall_ms;
            u.pending_1to1.lookup(id@) matches Some(after) && {
                &&& goes_on_to(before.delivery, node, after.delivery)
                &&& bytes_view(after.logical_record) == bytes_view(before.logical_record)
                &&& after.sequence == before.sequence
                &&& after.application_event == before.application_event
                &&& after.expires.nanos - h.now.nanos == (millis_left(before.expires, w.now) - age) * 1_000_000
                &&& millis_left(before.next_attempt, w.now) <= age ==> after.next_attempt == h.now
                &&& millis_left(before.next_attempt, w.now) > age && millis_left(before.next_attempt, w.now) <= millis_left(
                    before.expires,
                    w.now,
                ) ==> after.next_attempt.nanos - h.now.nanos == (millis_left(before.next_attempt, w.now) - age) * 1_000_000
                &&& millis_left(before.next_attempt, w.now) > millis_left(before.expires, w.now) ==> after.next_attempt == after.expires
            }
        }),
{
    let grants = lemma_archive(st, w, bytes, node, h, t, u);
    let s = st.pending_1to1.entries@;
    let e = writing(st, w);
    let (id, before) = s[i];
    no_item_is_refused(s, s.len(), e, i);
    let j = lemma_kept_entry(s, s.len(), e, i);
    let v = core_entry(st, w).pending;
    assert(v[j] == s[i].entry(e));
    cards_read_as_written(*w.codec, before.delivery.peer@);
    let elapsed_ms = elapsed_since(w.wall_ms, h.wall_ms);
    let by = Reviving { codec: h.codec, relay: &node.owner.client_relay, now: h.now, elapsed_ms, lapsed: &t.parts.lapsed };
    assert(<PendingFrame as Live<Reviving>>::kept(v[j], by));
    assert(<PendingFrame as Live<Reviving>>::key(v[j]) == id@);
    assert(t.parts.pending.lookup(id@) is Some);
    assert(u.pending_1to1.lookup(id@) == t.parts.pending.lookup(id@));
    let a = left_of(v[j].expiry_ms, elapsed_ms);
    let b = left_of(v[j].retry_ms, elapsed_ms);
    assert(a * 1_000_000 <= u64::MAX * 1_000_000) by (nonlinear_arith)
        requires
            a <= u64::MAX,
    ;
    assert(b * 1_000_000 <= u64::MAX * 1_000_000) by (nonlinear_arith)
        requires
            b <= u64::MAX,
    ;
}

/// From end to end: whom the user opted in for stays, in order; what was known of
/// anyone's presence does not.
pub proof fn policy_survives_and_belief_does_not(st: &NodeState, w: Writer, bytes: Vec<u8>, node: NodeState, h: Host, t: Reopened, u: NodeState)
    requires
        restarts(st, w, bytes, node, h, t, u),
    ensures
        views(u.presence.direct_opt_in@) == views(st.presence.direct_opt_in@),
        views(u.presence.channel_opt_in@) == views(st.presence.channel_opt_in@),
        forall|k: Seq<u8>| #[trigger] u.presence.direct.lookup(k) is None,
        forall|k: Seq<u8>| #[trigger] u.presence.direct_counters.lookup(k) is None,
        forall|k: (Seq<char>, [u8; 32])| #[trigger] u.presence.channel.lookup(k) is None,
        forall|k: (Seq<char>, [u8; 32])| #[trigger] u.presence.channel_counters.lookup(k) is None,
{
    let grants = lemma_archive(st, w, bytes, node, h, t, u);
    let p = st.presence.direct_opt_in@;
    every_item_has_its_entry(p, p.len(), channels_writing(w));
    let a = t.archive@.policy;
    assert forall|i: int| 0 <= i < p.len() implies #[trigger] views(p)[i] == a.peers[i].peer by {
        assert(a.peers[i] == p[i].entry(channels_writing(w)));
    }
    assert(views(u.presence.direct_opt_in@) =~= views(p));
    let c = st.presence.channel_opt_in@;
    every_item_has_its_entry(c, c.len(), &st.channels);
    assert forall|i: int| 0 <= i < c.len() implies #[trigger] views(c)[i] == a.channels[i].name by {
        assert(a.channels[i] == c[i].entry(&st.channels));
    }
    assert(views(u.presence.channel_opt_in@) =~= views(c));
}

/// From end to end: a prepared join comes back with its group, its name and its route
/// while every alias of the route has time left, and is dropped once one has not. The
/// next number for a join stays.
pub proof fn joins_survive_while_their_route_does(st: &NodeState, w: Writer, bytes: Vec<u8>, node: NodeState, h: Host, t: Reopened, u: NodeState, i: int)
    requires
        restarts(st, w, bytes, node, h, t, u),
        0 <= i < st.prepared.entries@.len(),
    ensures
        ({
            let (id, before) = st.prepared.entries@[i];
            let live = forall|j: int|
                0 <= j < before.route.aliases@.len() ==> (#[trigger] before.route.aliases@[j]).contact.expiry > h.now_unix;
            &&& live ==> (u.prepared.lookup(id) matches Some(after) && after.mls@ == before.mls@ && after.display@ == before.display@
                && after.route@ == before.route@)
            &&& !live ==> u.prepared.lookup(id) is None
        }),
        u.next_prep_id == st.next_prep_id,
{
    let grants = lemma_archive(st, w, bytes, node, h, t, u);
    let (id, before) = st.prepared.entries@[i];
    let a = t.archive@;
    assert(a.prepared[i].route == before.route@);
    assert(a.prepared[i].id == id);
    let v = before.route@.aliases;
    if forall|j: int| 0 <= j < before.route.aliases@.len() ==> (#[trigger] before.route.aliases@[j]).contact.expiry > h.now_unix {
        assert forall|j: int| 0 <= j < v.len() implies (#[trigger] v[j]).contact.expiry > h.now_unix by {
            assert(v[j] == before.route.aliases@[j]@);
        }
        assert(!run_out(before.route@, h.now_unix));
    } else {
        let j = choose|j: int| 0 <= j < before.route.aliases@.len() && (#[trigger] before.route.aliases@[j]).contact.expiry <= h.now_unix;
        assert(v[j].contact.expiry <= h.now_unix);
        assert(run_out(before.route@, h.now_unix));
    }
}

/// From end to end: what waits for the applications stays as it was, and so does who
/// owns them.
pub proof fn the_inbox_survives_a_restart(st: &NodeState, w: Writer, bytes: Vec<u8>, node: NodeState, h: Host, t: Reopened, u: NodeState)
    requires
        restarts(st, w, bytes, node, h, t, u),
    ensures
        u.application_inbox.messages@ == st.application_inbox.messages@,
        u.application_inbox.machine_owned == st.application_inbox.machine_owned,
        maybe_view(u.application_inbox.central_ownership) == maybe_view(st.application_inbox.central_ownership),
        u.next_direct_sequence >= st.next_direct_sequence,
        u.local_contact_generation >= st.local_contact_generation,
        u.owner == node.owner,
{
    let grants = lemma_archive(st, w, bytes, node, h, t, u);
}

} // verus!
