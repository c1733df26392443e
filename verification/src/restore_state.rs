//! Putting what an archive holds into the state of a node.

use vstd::prelude::*;
use crate::archive::{channel_names, join_ids, Archive, ArchiveView, PreparedJoinView};
use crate::archive_check::{core_good, entry_keys, ChannelFacts, Checks, Entry};
use crate::archive_frame::{CoreView, DeliveryFrame, NameFrame, NameView, PeerFrame, PeerRouteFrame, PeerView, PendingFrame, ProcessedFrame, SessionFrame, SessionView};
use crate::bytes::copy_bytes;
use crate::codec::{Codec, ForwardGrant, GrantView, NodeKeys};
use crate::error::Error;
use crate::model::{views, NodeInfo, OwnedChannelRoute, RelayTarget};
use crate::node_state::{ApplicationInbox, ChannelState, DirectDelivery, DirectSessionState, NodeState, PayloadUsage, PeerSession, PendingDirect, Presence, PreparedChannelJoin, ProcessedDirect, ProcessedKey};
use crate::record::{lemma_same_array, maybe_view};
use crate::restore::{check_sessions, grants_of, install_grants, is_owned, open_grants, owned, receipts_of, sessions_refusal, settle_receipts, with_grants, Grants, OpenedSession, Sessions, States};
use crate::retained::{count_usage, direct_usage};
use crate::revive::{all_deliver, all_ready, cards_known, countable, elapsed_ms, elapsed_since, extend_order, lapsed_of, lapsed_peers, live_keys, revive_acks, Cards, Generations, Live, Reviving};
use crate::archive_sound::{channel_sound, sound};
use crate::revive_channel::{channel_is, good_bodies_come_back, holds_all, restore_channel};
use crate::table::{distinct, Table};
use crate::time::Instant;

verus! {

/// What the host knows when a node is restored.
#[derive(Clone, Copy)]
pub struct Host<'a> {
    pub keys: &'a NodeKeys,
    pub codec: &'a Codec,
    /// The sessions that the host could open, by their archived form.
    pub opened: &'a Table<Vec<u8>, OpenedSession>,
    /// The relays that this node may forward to.
    pub permitted: &'a Vec<RelayTarget>,
    /// The receipt ledger that the windows of the sessions give anew.
    pub migrated: &'a Vec<u8>,
    pub wall_ms: u64,
    pub now: Instant,
    pub now_unix: u64,
}

/// The direct traffic of an archive, ready to go on.
#[derive(Debug)]
pub struct DirectParts {
    /// The peers whose unconfirmed session has lapsed.
    pub lapsed: Vec<Vec<u8>>,
    pub receipts: Vec<u8>,
    pub sessions: Table<Vec<u8>, PeerSession>,
    pub states: Table<Vec<u8>, DirectSessionState>,
    pub cards: Table<Vec<u8>, NodeInfo>,
    pub generations: Table<Vec<u8>, u64>,
    pub pending: Table<[u8; 16], PendingDirect>,
    pub acks: Vec<DirectDelivery>,
    pub processed: Table<ProcessedKey, ProcessedDirect>,
    pub grants: Vec<ForwardGrant>,
    /// What it all holds, for the account of a node with credited sessions.
    pub usage: Option<PayloadUsage>,
}

/// Whether the journals of direct traffic can come back.
pub open spec fn core_ready(v: CoreView, codec: Codec) -> bool {
    &&& distinct(live_keys::<Cards, PeerRouteFrame>(v.peer_routes))
    &&& forall|i: int| 0 <= i < v.peer_routes.len() ==> codec.card((#[trigger] v.peer_routes[i]).card) is Some
    &&& distinct(live_keys::<Sessions, SessionFrame>(v.sessions))
    &&& distinct(live_keys::<Reviving, PendingFrame>(v.pending))
    &&& forall|i: int| 0 <= i < v.pending.len() ==> codec.card((#[trigger] v.pending[i]).delivery.card) is Some
    &&& cards_known(v.acks, codec)
    &&& distinct(live_keys::<Reviving, ProcessedFrame>(v.processed))
    &&& forall|i: int| 0 <= i < v.processed.len() ==> codec.card((#[trigger] v.processed[i]).delivery.card) is Some
}

/// Journals that are in order can come back.
pub proof fn good_cores_come_back(v: CoreView, c: Checks)
    requires
        core_good(v, c),
    ensures
        core_ready(v, *c.codec),
{
    reveal(core_good);
    let routes = live_keys::<Cards, PeerRouteFrame>(v.peer_routes);
    assert(routes =~= entry_keys::<PeerRouteFrame>(v.peer_routes));
    assert forall|i: int| 0 <= i < v.peer_routes.len() implies c.codec.card((#[trigger] v.peer_routes[i]).card) is Some by {
        assert(<PeerRouteFrame as Entry>::good(v.peer_routes[i], c));
    }
    assert(live_keys::<Sessions, SessionFrame>(v.sessions) =~= entry_keys::<SessionFrame>(v.sessions));
    let ids = entry_keys::<PendingFrame>(v.pending);
    let pending = live_keys::<Reviving, PendingFrame>(v.pending);
    assert forall|i: int, j: int| 0 <= i < j < pending.len() implies pending[i] != pending[j] by {
        assert(ids[i] != ids[j]);
        if pending[i] == pending[j] {
            lemma_same_array(ids[i], ids[j]);
        }
    }
    assert forall|i: int| 0 <= i < v.pending.len() implies c.codec.card((#[trigger] v.pending[i]).delivery.card) is Some by {
        assert(<PendingFrame as Entry>::good(v.pending[i], c));
    }
    assert forall|i: int| 0 <= i < v.acks.len() implies c.codec.card((#[trigger] v.acks[i]).card) is Some by {
        assert(<DeliveryFrame as Entry>::good(v.acks[i], c));
    }
    assert(live_keys::<Reviving, ProcessedFrame>(v.processed) =~= entry_keys::<ProcessedFrame>(v.processed));
    assert forall|i: int| 0 <= i < v.processed.len() implies c.codec.card((#[trigger] v.processed[i]).delivery.card) is Some by {
        assert(<ProcessedFrame as Entry>::good(v.processed[i], c));
    }
}

pub open spec fn sessions_by<'a>(lapsed: &'a Vec<Vec<u8>>, h: Host<'a>) -> Sessions<'a> {
    Sessions { opened: h.opened, lapsed }
}

pub open spec fn grants_by<'a>(h: Host<'a>) -> Grants<'a> {
    Grants { keys: h.keys, codec: h.codec, now_unix: h.now_unix, permitted: h.permitted }
}

/// Whether a node holds direct traffic already.
pub open spec fn has_traffic(st: NodeState) -> bool {
    st.sessions.entries@.len() > 0 || st.pending_1to1.entries@.len() > 0 || st.direct_ack_outbox@.len() > 0
        || st.processed_direct.entries@.len() > 0
}

/// Why direct traffic cannot come back to a node.
pub open spec fn direct_refusal(st: NodeState, a: ArchiveView, lapsed: Vec<Vec<u8>>, h: Host) -> Option<Error> {
    let w = sessions_by(&lapsed, h);
    if st.application_inbox.messages.next_sequence != 1 || owned(st.application_inbox) {
        Some(Error::LiveInbox)
    } else {
        match sessions_refusal(a.core.sessions, a.core.sessions.len(), w) {
            Some(e) => Some(e),
            None => match receipts_of(a.receipts, a.core.sessions, h.migrated@, w) {
                Err(e) => Some(e),
                Ok(_) => match grants_of(a.policy.grants, a.policy.grants.len(), grants_by(h)) {
                    Err(e) => Some(e),
                    Ok(_) => if st.gc2_sessions && has_traffic(st) {
                        Some(Error::LiveDirectState)
                    } else {
                        None
                    },
                },
            },
        }
    }
}

/// Whether parts are the direct traffic of an archive.
pub open spec fn direct_is(st: NodeState, a: ArchiveView, h: Host, t: DirectParts) -> bool {
    let elapsed_ms = elapsed_since(a.core.head.exported_ms, h.wall_ms);
    let w = Reviving { codec: h.codec, relay: &st.owner.client_relay, now: h.now, elapsed_ms, lapsed: &t.lapsed };
    let by = sessions_by(&t.lapsed, h);
    &&& views(t.lapsed@) == lapsed_of(a.core.sessions, a.core.sessions.len(), elapsed_ms)
    &&& receipts_of(a.receipts, a.core.sessions, h.migrated@, by) == Ok::<Seq<u8>, Error>(t.receipts@)
    &&& holds_all::<Sessions, SessionFrame>(a.core.sessions, t.sessions, by)
    &&& holds_all::<States, SessionFrame>(a.core.sessions, t.states, States { lapsed: &t.lapsed, now: h.now, elapsed_ms })
    &&& holds_all::<Cards, PeerRouteFrame>(a.core.peer_routes, t.cards, Cards { codec: h.codec })
    &&& holds_all::<Generations, PeerRouteFrame>(a.core.peer_routes, t.generations, Generations { codec: h.codec })
    &&& holds_all::<Reviving, PendingFrame>(a.core.pending, t.pending, w)
    &&& all_deliver(a.core.acks, w, t.acks@)
    &&& holds_all::<Reviving, ProcessedFrame>(a.core.processed, t.processed, w)
    &&& grants_of(a.policy.grants, a.policy.grants.len(), grants_by(h)) == Ok::<Seq<GrantView>, Error>(views(t.grants@))
    &&& t.usage == (if st.gc2_sessions {
        match direct_usage(t.sessions.entries@, t.pending.entries@, t.acks@, t.processed.entries@, None) {
            Ok(usage) => Some(usage),
            Err(_) => None,
        }
    } else {
        None
    })
    &&& t.sessions.wf() && t.states.wf() && t.cards.wf() && t.generations.wf() && t.pending.wf() && t.processed.wf()
}

proof fn lemma_sessions_open(s: Seq<SessionView>, n: nat, w: Sessions)
    requires
        sessions_refusal(s, n, w) is None,
        n <= s.len(),
    ensures
        forall|i: int| 0 <= i < n ==> <SessionFrame as Live<Sessions>>::ready(#[trigger] s[i], w),
    decreases n,
{
    if n > 0 {
        lemma_sessions_open(s, (n - 1) as nat, w);
    }
}

/// Brings direct traffic back, without touching the node.
pub fn prepare_direct(st: &NodeState, archive: &Archive, h: Host) -> (r: Result<DirectParts, Error>)
    requires
        core_ready(archive.core@, *h.codec),
        countable(h.now),
    ensures
        match r {
            Ok(parts) => direct_refusal(*st, archive@, parts.lapsed, h) is None && direct_is(*st, archive@, h, parts),
            Err(e) => exists|lapsed: Vec<Vec<u8>>|
                views(lapsed@) == lapsed_of(
                    archive@.core.sessions,
                    archive@.core.sessions.len(),
                    elapsed_since(archive@.core.head.exported_ms, h.wall_ms),
                ) && #[trigger] direct_refusal(*st, archive@, lapsed, h) == Some(e),
        },
{
    let elapsed: u64 = elapsed_ms(archive.core.head.exported_ms, h.wall_ms);
    let lapsed = lapsed_peers(&archive.core.sessions, elapsed);
    let ghost a = archive@;
    assert(a.core.sessions == views(archive.core.sessions@));
    if st.application_inbox.messages.next_sequence != 1 || is_owned(&st.application_inbox) {
        assert(direct_refusal(*st, a, lapsed, h) == Some(Error::LiveInbox));
        return Err(Error::LiveInbox);
    }
    let by = Sessions { opened: h.opened, lapsed: &lapsed };
    match check_sessions(&archive.core.sessions, by) {
        Ok(()) => {},
        Err(e) => {
            assert(direct_refusal(*st, a, lapsed, h) == Some(e));
            return Err(e);
        },
    }
    proof {
        lemma_sessions_open(a.core.sessions, a.core.sessions.len(), by);
    }
    let receipts = match settle_receipts(&archive.receipts, &archive.core.sessions, h.migrated, by) {
        Ok(receipts) => receipts,
        Err(e) => {
            assert(direct_refusal(*st, a, lapsed, h) == Some(e));
            return Err(e);
        },
    };
    let grants = match open_grants(
        &archive.policy.grants,
        Grants { keys: h.keys, codec: h.codec, now_unix: h.now_unix, permitted: h.permitted },
    ) {
        Ok(grants) => grants,
        Err(e) => {
            assert(direct_refusal(*st, a, lapsed, h) == Some(e));
            return Err(e);
        },
    };
    if st.gc2_sessions && (st.sessions.entries.len() > 0 || st.pending_1to1.entries.len() > 0 || st.direct_ack_outbox.len() > 0
        || st.processed_direct.entries.len() > 0) {
        assert(direct_refusal(*st, a, lapsed, h) == Some(Error::LiveDirectState));
        return Err(Error::LiveDirectState);
    }
    assert(direct_refusal(*st, a, lapsed, h) is None);
    let parts = build_direct(st, archive, h, elapsed, lapsed, receipts, grants);
    Ok(parts)
}

fn build_direct(
    st: &NodeState,
    archive: &Archive,
    h: Host,
    elapsed: u64,
    lapsed: Vec<Vec<u8>>,
    receipts: Vec<u8>,
    grants: Vec<ForwardGrant>,
) -> (r: DirectParts)
    requires
        core_ready(archive.core@, *h.codec),
        countable(h.now),
        elapsed == elapsed_since(archive@.core.head.exported_ms, h.wall_ms),
        views(lapsed@) == lapsed_of(archive@.core.sessions, archive@.core.sessions.len(), elapsed),
        all_ready::<Sessions, SessionFrame>(archive@.core.sessions, Sessions { opened: h.opened, lapsed: &lapsed }),
        receipts_of(archive@.receipts, archive@.core.sessions, h.migrated@, sessions_by(&lapsed, h)) == Ok::<Seq<u8>, Error>(receipts@),
        grants_of(archive@.policy.grants, archive@.policy.grants.len(), grants_by(h)) == Ok::<Seq<GrantView>, Error>(views(grants@)),
    ensures
        direct_is(*st, archive@, h, r),
        r.lapsed == lapsed,
{
    let ghost core = archive.core@;
    let w = Reviving { codec: h.codec, relay: &st.owner.client_relay, now: h.now, elapsed_ms: elapsed, lapsed: &lapsed };
    let by = Sessions { opened: h.opened, lapsed: &lapsed };
    let states_by = States { lapsed: &lapsed, now: h.now, elapsed_ms: elapsed };
    proof {
        assert(core.sessions == views(archive.core.sessions@));
        assert(live_keys::<States, SessionFrame>(core.sessions) =~= live_keys::<Sessions, SessionFrame>(core.sessions));
        assert(live_keys::<Generations, PeerRouteFrame>(core.peer_routes) =~= live_keys::<Cards, PeerRouteFrame>(core.peer_routes));
        assert forall|i: int| 0 <= i < core.pending.len() implies <PendingFrame as Live<Reviving>>::ready(#[trigger] core.pending[i], w) by {
            assert(h.codec.card(core.pending[i].delivery.card) is Some);
        }
        assert forall|i: int| 0 <= i < core.processed.len() implies <ProcessedFrame as Live<Reviving>>::ready(#[trigger] core.processed[i], w) by {
            assert(h.codec.card(core.processed[i].delivery.card) is Some);
        }
        assert forall|i: int| 0 <= i < core.peer_routes.len() implies <PeerRouteFrame as Live<Cards>>::ready(
            #[trigger] core.peer_routes[i],
            Cards { codec: h.codec },
        ) by {
            assert(h.codec.card(core.peer_routes[i].card) is Some);
        }
    }
    let sessions = crate::revive_channel::revive_table(&archive.core.sessions, by);
    let states = crate::revive_channel::revive_table(&archive.core.sessions, states_by);
    let cards = crate::revive_channel::revive_table(&archive.core.peer_routes, Cards { codec: h.codec });
    let generations = crate::revive_channel::revive_table(&archive.core.peer_routes, Generations { codec: h.codec });
    let pending = crate::revive_channel::revive_table(&archive.core.pending, w);
    let acks = revive_acks(&archive.core.acks, w);
    let processed = crate::revive_channel::revive_table(&archive.core.processed, w);
    let usage = if st.gc2_sessions {
        match count_usage(&sessions.entries, &pending.entries, &acks, &processed.entries, None) {
            Ok(usage) => Some(usage),
            Err(_) => None,
        }
    } else {
        None
    };
    DirectParts { lapsed, receipts, sessions, states, cards, generations, pending, acks, processed, grants, usage }
}

/// The own routes of a channel, once they are settled.
#[derive(Debug)]
pub struct SettledRoute {
    pub own: OwnedChannelRoute,
    pub previous: Option<OwnedChannelRoute>,
}

/// Whether a table holds the archived channels, each with its settled routes.
pub open spec fn channels_are(a: ArchiveView, routes: Seq<SettledRoute>, codec: &Codec, t: Table<String, ChannelState>) -> bool {
    let c = Checks { version: a.version, codec };
    &&& forall|i: int|
        0 <= i < a.channels.len() ==> (t.lookup((#[trigger] a.channels[i]).head.name) matches Some(x) && channel_is(
            a.channels[i],
            routes[i].own@,
            maybe_view(routes[i].previous),
            c,
            x,
        ))
    &&& forall|k: Seq<char>| #[trigger] t.has(k) ==> channel_names(a.channels).contains(k)
}

/// Brings the channels of an archive back with their settled routes.
pub fn restore_channels(archive: &Archive, routes: Vec<SettledRoute>, codec: &Codec) -> (r: Table<String, ChannelState>)
    requires
        sound(archive@, codec),
        routes@.len() == archive.channels@.len(),
    ensures
        r.wf(),
        channels_are(archive@, routes@, codec, r),
{
    let ghost a = archive@;
    let ghost names = channel_names(a.channels);
    let c = Checks { version: archive.version, codec };
    let ghost all = routes@;
    let mut routes = routes;
    let mut table: Table<String, ChannelState> = Table::new();
    let mut i: usize = 0;
    while i < archive.channels.len()
        invariant
            i <= archive.channels.len(),
            a == archive@,
            names == channel_names(a.channels),
            distinct(names),
            c == (Checks { version: a.version, codec }),
            forall|j: int| 0 <= j < a.channels.len() ==> channel_sound(#[trigger] a.channels[j], c),
            all.len() == archive.channels@.len(),
            routes@ == all.skip(i as int),
            table.wf(),
            forall|j: int|
                0 <= j < i ==> (table.lookup((#[trigger] a.channels[j]).head.name) matches Some(x) && channel_is(
                    a.channels[j],
                    all[j].own@,
                    maybe_view(all[j].previous),
                    c,
                    x,
                )),
            forall|k: Seq<char>| #[trigger] table.has(k) ==> names.take(i as int).contains(k),
        decreases archive.channels.len() - i,
    {
        assert(a.channels[i as int] == archive.channels@[i as int]@);
        assert(channel_sound(a.channels[i as int], c));
        let settled = routes.remove(0);
        assert(settled == all[i as int]);
        assert(routes@ =~= all.skip(i + 1));
        proof {
            let v = a.channels[i as int];
            good_bodies_come_back(
                v.body,
                ChannelFacts { c, name: v.head.name, role: codec.role(v.head.owner, v.head.name, v.head.blob)->0 },
            );
        }
        let channel = restore_channel(&archive.channels[i], settled.own, settled.previous, c);
        let name = archive.channels[i].head.name.clone();
        let ghost before = table;
        table.insert(name, channel);
        proof {
            assert(names[i as int] == a.channels[i as int].head.name);
            assert forall|j: int| 0 <= j <= i implies (table.lookup((#[trigger] a.channels[j]).head.name) matches Some(x) && channel_is(
                a.channels[j],
                all[j].own@,
                maybe_view(all[j].previous),
                c,
                x,
            )) by {
                if j < i {
                    assert(names[j] != names[i as int]);
                    assert(names[j] == a.channels[j].head.name);
                }
            }
            assert forall|k: Seq<char>| #[trigger] table.has(k) implies names.take(i + 1).contains(k) by {
                if k == names[i as int] {
                    assert(names.take(i + 1)[i as int] == k);
                } else {
                    assert(table.lookup(k) == before.lookup(k));
                    assert(before.has(k));
                    let j = names.take(i as int).index_of(k);
                    assert(names.take(i + 1)[j] == k);
                }
            }
        }
        i += 1;
    }
    assert(names.take(i as int) =~= names);
    table
}

/// Whether a join came back with a route.
pub open spec fn join_is(v: PreparedJoinView, route: OwnedChannelRoute, t: PreparedChannelJoin) -> bool {
    t.mls@ == v.mls && t.display@ == v.display && t.route@ == route@
}

/// Whether a table holds the joins that came back, each with its settled route.
pub open spec fn joins_are(s: Seq<PreparedJoinView>, routes: Seq<Option<OwnedChannelRoute>>, t: Table<u64, PreparedChannelJoin>) -> bool {
    &&& forall|i: int|
        0 <= i < s.len() ==> match routes[i] {
            Some(route) => t.lookup((#[trigger] s[i]).id) matches Some(x) && join_is(s[i], route, x),
            None => t.lookup(s[i].id) is None,
        }
    &&& forall|k: u64| #[trigger] t.has(k) ==> join_ids(s).contains(k)
}

/// Brings the prepared joins of an archive back, those with a settled route.
pub fn restore_joins(archive: &Archive, routes: Vec<Option<OwnedChannelRoute>>) -> (r: Table<u64, PreparedChannelJoin>)
    requires
        distinct(join_ids(archive@.prepared)),
        routes@.len() == archive.prepared@.len(),
    ensures
        r.wf(),
        joins_are(archive@.prepared, routes@, r),
{
    let ghost s = archive@.prepared;
    let ghost ids = join_ids(s);
    let ghost all = routes@;
    let mut routes = routes;
    let mut table: Table<u64, PreparedChannelJoin> = Table::new();
    let mut i: usize = 0;
    while i < archive.prepared.len()
        invariant
            i <= archive.prepared.len(),
            s == archive@.prepared,
            ids == join_ids(s),
            distinct(ids),
            all.len() == archive.prepared@.len(),
            routes@ == all.skip(i as int),
            table.wf(),
            forall|j: int|
                0 <= j < i ==> match all[j] {
                    Some(route) => table.lookup((#[trigger] s[j]).id) matches Some(x) && join_is(s[j], route, x),
                    None => table.lookup(s[j].id) is None,
                },
            forall|k: u64| #[trigger] table.has(k) ==> ids.take(i as int).contains(k),
        decreases archive.prepared.len() - i,
    {
        assert(s[i as int] == archive.prepared@[i as int]@);
        let route = routes.remove(0);
        assert(route == all[i as int]);
        assert(routes@ =~= all.skip(i + 1));
        let ghost before = table;
        let ghost id = s[i as int].id;
        assert(ids[i as int] == id);
        assert(!before.has(id)) by {
            if before.has(id) {
                let j = ids.take(i as int).index_of(id);
                assert(ids[j] == id);
            }
        }
        match route {
            Some(route) => {
                let join = PreparedChannelJoin {
                    mls: copy_bytes(archive.prepared[i].mls.as_slice()),
                    route,
                    display: archive.prepared[i].display.clone(),
                };
                table.insert(archive.prepared[i].id, join);
            },
            None => {},
        }
        proof {
            assert forall|j: int| 0 <= j <= i implies match all[j] {
                Some(route) => table.lookup((#[trigger] s[j]).id) matches Some(x) && join_is(s[j], route, x),
                None => table.lookup(s[j].id) is None,
            } by {
                if j < i {
                    assert(ids[j] != ids[i as int]);
                    assert(ids[j] == s[j].id);
                    assert(table.lookup(s[j].id) == before.lookup(s[j].id));
                }
            }
            assert forall|k: u64| #[trigger] table.has(k) implies ids.take(i + 1).contains(k) by {
                if k == id {
                    assert(ids.take(i + 1)[i as int] == k);
                } else {
                    assert(table.lookup(k) == before.lookup(k));
                    assert(before.has(k));
                    let j = ids.take(i as int).index_of(k);
                    assert(ids.take(i + 1)[j] == k);
                }
            }
        }
        i += 1;
    }
    assert(ids.take(i as int) =~= ids);
    table
}

/// The number after the highest of the messages that wait, or one.
pub open spec fn next_of(s: Seq<([u8; 16], PendingDirect)>, n: nat) -> u64
    decreases n,
{
    if n == 0 {
        1
    } else {
        let before = next_of(s, (n - 1) as nat);
        let after = if s[n - 1].1.sequence < u64::MAX {
            (s[n - 1].1.sequence + 1) as u64
        } else {
            u64::MAX
        };
        if before < after {
            after
        } else {
            before
        }
    }
}

fn next_sequence(s: &Vec<([u8; 16], PendingDirect)>) -> (r: u64)
    ensures
        r == next_of(s@, s@.len()),
{
    let mut next: u64 = 1;
    let mut i: usize = 0;
    while i < s.len()
        invariant
            i <= s.len(),
            next == next_of(s@, i as nat),
        decreases s.len() - i,
    {
        let after: u64 = s[i].1.sequence.saturating_add(1);
        if next < after {
            next = after;
        }
        i += 1;
    }
    next
}

pub open spec fn larger(a: u64, b: u64) -> u64 {
    if a < b {
        b
    } else {
        a
    }
}

pub open spec fn peers_of(s: Seq<PeerView>) -> Seq<Seq<u8>> {
    Seq::new(s.len(), |i: int| s[i].peer)
}

pub open spec fn names_of(s: Seq<NameView>) -> Seq<Seq<char>> {
    Seq::new(s.len(), |i: int| s[i].name)
}

fn list_peers(s: &Vec<PeerFrame>) -> (r: Vec<Vec<u8>>)
    ensures
        views(r@) == peers_of(views(s@)),
{
    let mut out: Vec<Vec<u8>> = Vec::new();
    let mut i: usize = 0;
    while i < s.len()
        invariant
            i <= s.len(),
            out@.len() == i,
            forall|j: int| 0 <= j < i ==> (#[trigger] out@[j])@ == s@[j].peer@,
        decreases s.len() - i,
    {
        out.push(copy_bytes(s[i].peer.as_slice()));
        i += 1;
    }
    assert(views(out@) =~= peers_of(views(s@)));
    out
}

fn list_names(s: &Vec<NameFrame>) -> (r: Vec<String>)
    ensures
        views(r@) == names_of(views(s@)),
{
    let mut out: Vec<String> = Vec::new();
    let mut i: usize = 0;
    while i < s.len()
        invariant
            i <= s.len(),
            out@.len() == i,
            forall|j: int| 0 <= j < i ==> (#[trigger] out@[j])@ == s@[j].name@,
        decreases s.len() - i,
    {
        out.push(s[i].name.clone());
        i += 1;
    }
    assert(views(out@) =~= names_of(views(s@)));
    out
}

impl NodeState {
    /// No table of the node knows a key twice.
    pub open spec fn tables_wf(self) -> bool {
        &&& self.sessions.wf()
        &&& self.session_states.wf()
        &&& self.peer_routes.wf()
        &&& self.peer_route_generations.wf()
        &&& self.pending_1to1.wf()
        &&& self.processed_direct.wf()
        &&& self.channels.wf()
        &&& self.presence.direct.wf()
        &&& self.presence.direct_counters.wf()
        &&& self.presence.channel.wf()
        &&& self.presence.channel_counters.wf()
    }
}

/// Whether one table was put over another.
pub open spec fn over<K: crate::table::Key, V>(before: Table<K, V>, put: Table<K, V>, after: Table<K, V>) -> bool {
    after.wf() && forall|k: K::V| #[trigger] after.lookup(k) == (if put.has(k) {
        put.lookup(k)
    } else {
        before.lookup(k)
    })
}

/// Whether a node goes on with what its archive held: direct traffic and
/// channels over what it had, sequences and generations no lower than either,
/// and no presence known.
pub open spec fn goes_on(
    st: NodeState,
    a: ArchiveView,
    parts: DirectParts,
    joins: Table<u64, PreparedChannelJoin>,
    channels: Table<String, ChannelState>,
    t: NodeState,
) -> bool {
    &&& t.gc2_receipts@ == parts.receipts@
    &&& over(st.sessions, parts.sessions, t.sessions)
    &&& over(st.session_states, parts.states, t.session_states)
    &&& over(st.peer_routes, parts.cards, t.peer_routes)
    &&& over(st.peer_route_generations, parts.generations, t.peer_route_generations)
    &&& over(st.pending_1to1, parts.pending, t.pending_1to1)
    &&& t.direct_ack_outbox@ == st.direct_ack_outbox@ + parts.acks@
    &&& over(st.processed_direct, parts.processed, t.processed_direct)
    &&& views(t.processed_direct_order@) == views(st.processed_direct_order@) + Seq::new(
        a.core.processed.len(),
        |i: int| (a.core.processed[i].peer, a.core.processed[i].counter),
    )
    &&& over(st.channels, channels, t.channels)
    &&& t.next_direct_sequence == larger(
        larger(st.next_direct_sequence, a.core.head.next_direct_sequence),
        next_of(parts.pending.entries@, parts.pending.entries@.len()),
    )
    &&& t.local_contact_generation == larger(st.local_contact_generation, a.core.head.local_contact_generation)
    &&& t.presence.direct.entries@.len() == 0
    &&& t.presence.direct_counters.entries@.len() == 0
    &&& t.presence.channel.entries@.len() == 0
    &&& t.presence.channel_counters.entries@.len() == 0
    &&& views(t.presence.direct_opt_in@) == peers_of(a.policy.peers)
    &&& views(t.presence.channel_opt_in@) == names_of(a.policy.channels)
    &&& t.prepared == joins
    &&& t.next_prep_id == a.next_prep_id
    &&& t.application_inbox.messages@ == a.application_inbox
    &&& maybe_view(t.application_inbox.central_ownership) == a.central_ownership
    &&& t.application_inbox.machine_owned == a.machine_owned
    &&& !t.application_inbox.local_routing_policy
    &&& t.owner == st.owner
    &&& t.owner_transition_failed == st.owner_transition_failed
    &&& t.gc2_sessions == st.gc2_sessions
    &&& t.routing == st.routing
    &&& t.sealed_tls_identity == st.sealed_tls_identity
    &&& views(t.forward_grants@) == with_grants(views(st.forward_grants@), views(parts.grants@), parts.grants@.len())
}

/// Puts what came back into the node. The host has admitted its usage.
pub fn install(
    st: &mut NodeState,
    archive: Archive,
    parts: DirectParts,
    joins: Table<u64, PreparedChannelJoin>,
    channels: Table<String, ChannelState>,
)
    requires
        old(st).tables_wf(),
        parts.sessions.wf(),
        parts.states.wf(),
        parts.cards.wf(),
        parts.generations.wf(),
        parts.pending.wf(),
        parts.processed.wf(),
        channels.wf(),
    ensures
        goes_on(*old(st), archive@, parts, joins, channels, *final(st)),
        final(st).tables_wf(),
{
    let ghost a = archive@;
    let ghost before = *st;
    let next: u64 = next_sequence(&parts.pending.entries);
    st.gc2_receipts = parts.receipts;
    st.sessions.absorb(parts.sessions);
    st.session_states.absorb(parts.states);
    if st.next_direct_sequence < archive.core.head.next_direct_sequence {
        st.next_direct_sequence = archive.core.head.next_direct_sequence;
    }
    if st.next_direct_sequence < next {
        st.next_direct_sequence = next;
    }
    if st.local_contact_generation < archive.core.head.local_contact_generation {
        st.local_contact_generation = archive.core.head.local_contact_generation;
    }
    st.presence = Presence {
        direct: Table::new(),
        direct_counters: Table::new(),
        direct_opt_in: list_peers(&archive.policy.peers),
        channel: Table::new(),
        channel_counters: Table::new(),
        channel_opt_in: list_names(&archive.policy.channels),
    };
    st.peer_routes.absorb(parts.cards);
    st.peer_route_generations.absorb(parts.generations);
    st.pending_1to1.absorb(parts.pending);
    let mut acks = parts.acks;
    st.direct_ack_outbox.append(&mut acks);
    extend_order(&mut st.processed_direct_order, &archive.core.processed);
    st.processed_direct.absorb(parts.processed);
    st.channels.absorb(channels);
    install_grants(&mut st.forward_grants, parts.grants);
    st.prepared = joins;
    st.next_prep_id = archive.next_prep_id;
    st.application_inbox = ApplicationInbox {
        messages: archive.application_inbox,
        central_ownership: archive.central_ownership,
        machine_owned: archive.machine_owned,
        local_routing_policy: false,
    };
    assert(st.direct_ack_outbox@ =~= before.direct_ack_outbox@ + parts.acks@);
}

} // verus!
