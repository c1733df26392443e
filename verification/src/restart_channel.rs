//! What a channel keeps over a restart.

use vstd::prelude::*;
use crate::archive::{decoded, ArchiveView, NamedRoutesView, Reader};
use crate::archive_check::{body_good, current_members, entry_keys, is_current, recipients_good, reconciled, ChannelFacts, Checks};
use crate::archive_frame::{AdmissionFrame, AdmissionView, ArchivedChannelView, ChannelBodyView, ChannelHeadView, CommitAckFrame, CommitAckView, InviteFrame, InviteView, MemberFrame, MemberView, MessageFrame, RecipientFrame, SealedView, UnroutedFrame, UnroutedView};
use crate::archive_item::{all_entries, all_refusal, entries_of, expected_entry, expected_refusal, first_refusal, ChannelWriting, Stored};
use crate::archive_law::{archive_reads_back, channel_readable, facts_of, readable, reader, restored, route_views};
use crate::archive_write::{body_refusal, channel_entries, channels_writing, current_route, encodes, encodes_tail, grants_kept, has_routes, journals_refusal, ledger_entry, outbox_entry, own_name, role_of, writes_journals, write_layout, written_version, Writer};
use crate::channel_route::routes_read_as_written;
use crate::codec::{Codec, RoleFacts};
use crate::error::Error;
use crate::model::{views, ChannelRoute, OwnedChannelRouteView};
use crate::node_state::{ChannelState, NodeState};
use crate::record::{lemma_same_array, maybe_view};
use crate::reopen::{all_settled, offline_route, reopens, retained_routes, routes_named, settles, Reopened};
use crate::restore::admitted;
use crate::restore_state::{channels_are, goes_on, Host, SettledRoute};
use crate::revive::{named, Live};
use crate::revive_channel::{channel_is, directory_is, holds_all, recipients_are, Journals};
use crate::table::{distinct, lemma_place, place, Table};

verus! {

/// Where every item is kept, each has its entry, in its place.
pub proof fn every_item_has_its_entry<W: Copy, S: Stored<W>>(s: Seq<S>, n: nat, w: W)
    requires
        n <= s.len(),
        forall|i: int| 0 <= i < n ==> (#[trigger] s[i]).kept(w),
    ensures
        entries_of(s, n, w).len() == n,
        forall|i: int| 0 <= i < n ==> #[trigger] entries_of(s, n, w)[i] == s[i].entry(w),
    decreases n,
{
    if n > 0 {
        every_item_has_its_entry(s, (n - 1) as nat, w);
    }
}

/// Items are kept all together or not at all: where none is refused, each of them
/// can be kept.
pub proof fn no_item_is_refused<W: Copy, S: Stored<W>>(s: Seq<S>, n: nat, w: W, i: int)
    requires
        first_refusal(s, n, w) is None,
        0 <= i < n <= s.len(),
        s[i].kept(w),
    ensures
        s[i].refusal(w) is None,
    decreases n,
{
    if i < n - 1 {
        no_item_is_refused(s, (n - 1) as nat, w, i);
    }
}

/// As many different keys as there are keys are all of them.
proof fn lemma_all_listed<T>(keys: Seq<T>, order: Seq<T>, k: T)
    requires
        distinct(keys),
        distinct(order),
        keys.len() == order.len(),
        forall|i: int| 0 <= i < order.len() ==> keys.contains(#[trigger] order[i]),
        keys.contains(k),
    ensures
        order.contains(k),
{
    assert(keys.no_duplicates()) by {
        assert forall|i: int, j: int| 0 <= i < keys.len() && 0 <= j < keys.len() && i != j implies keys[i] != keys[j] by {
            if i < j {
                assert(keys[i] != keys[j]);
            } else {
                assert(keys[j] != keys[i]);
            }
        }
    }
    assert(order.no_duplicates()) by {
        assert forall|i: int, j: int| 0 <= i < order.len() && 0 <= j < order.len() && i != j implies order[i] != order[j] by {
            if i < j {
                assert(order[i] != order[j]);
            } else {
                assert(order[j] != order[i]);
            }
        }
    }
    keys.unique_seq_to_set();
    order.unique_seq_to_set();
    let a = order.to_set();
    let b = keys.to_set();
    assert(a.subset_of(b)) by {
        assert forall|x: T| a.contains(x) implies b.contains(x) by {
            assert(order.contains(x));
            let i = order.index_of(x);
            assert(keys.contains(order[i]));
        }
    }
    vstd::set_lib::lemma_subset_equality(a, b);
    assert(b.contains(k));
    assert(a.contains(k));
}

/// What is known of a channel that came back: it was written without refusal, was in
/// order, and is what its entry comes back as.
pub open spec fn channel_came_back(name: String, before: ChannelState, after: ChannelState, w: Writer, version: u8) -> bool {
    let role = role_of(name@, &before, *w.codec)->0;
    let cw = ChannelWriting { codec: w.codec, name: &name, role: &role, channel: &before };
    let written = ArchivedChannelView {
        head: ChannelHeadView { name: name@, public: before.public, owner: before.owner, blob: before.blob@ },
        body: ChannelBodyView { outbox: outbox_entry(&before, cw), ledger: ledger_entry(&before, cw) },
    };
    let facts = facts_of(written, version, w.codec);
    &&& role_of(name@, &before, *w.codec) is Some
    &&& body_refusal(&before, cw, *w.p) is None
    &&& body_good(written.body, facts)
    &&& w.codec.routes.wf()
    &&& exists|own: OwnedChannelRouteView, previous: Option<OwnedChannelRouteView>| #[trigger]
        channel_is(
            ArchivedChannelView { head: written.head, body: reconciled(written.body, facts) },
            own,
            previous,
            Checks { version, codec: w.codec },
            after,
        )
}

/// From end to end: every channel of a node is there after its archive was reopened
/// and put in place.
pub proof fn every_channel_comes_back(st: &NodeState, w: Writer, bytes: Vec<u8>, node: NodeState, h: Host, t: Reopened, u: NodeState, i: int)
    requires
        encodes(st, w, Ok(bytes)),
        readable(st, w),
        h.keys == w.keys,
        h.codec == w.codec,
        admitted(node, bytes@, Reader { keys: h.keys, codec: h.codec, p: w.p }) == Ok::<ArchiveView, Error>(t.archive@),
        reopens(node, t.archive@, h, w.p, t),
        goes_on(node, t.archive@, t.parts, t.joins, t.channels, u),
        0 <= i < st.channels.entries@.len(),
    ensures
        ({
            let (name, before) = st.channels.entries@[i];
            u.channels.lookup(name@) matches Some(after) && channel_came_back(name, before, after, w, written_version(*st, w.replaced))
        }),
{
    archive_reads_back(st, w, bytes);
    let grants = choose|grants: Seq<SealedView>| #[trigger]
        grants_kept(st.forward_grants@, grants, w) && decoded(bytes@, reader(w)) == Ok::<ArchiveView, Error>(restored(st, grants, w));
    let a = t.archive@;
    assert(a == restored(st, grants, w));
    let s = st.channels.entries@;
    let (name, before) = s[i];
    every_item_has_its_entry(s, s.len(), channels_writing(w));
    let cs = channel_entries(st, w);
    assert(cs[i] == s[i].entry(channels_writing(w)));
    let journals = choose|journals: Result<Vec<u8>, Error>| #[trigger]
        writes_journals(st, w, journals) && match journals {
            Err(e) => Ok::<Vec<u8>, Error>(bytes) == Err::<Vec<u8>, Error>(e),
            Ok(done) => encodes_tail(st, done@, w, Ok(bytes)),
        };
    assert(journals_refusal(st, w) is None);
    assert(all_refusal(s, channels_writing(w)) is None);
    no_item_is_refused(s, s.len(), channels_writing(w), i);
    assert(channel_readable(cs[i], cs.take(i), write_layout(st, w), w.codec));
    let routes = choose|routes: Seq<SettledRoute>|
        routes.len() == a.channels.len() && all_settled(a, routes, h, w.p) && #[trigger] channels_are(
            a,
            routes,
            h.codec,
            t.channels,
        );
    assert(a.channels[i].head.name == name@);
    let after = t.channels.lookup(a.channels[i].head.name)->0;
    assert(channel_is(a.channels[i], routes[i].own@, maybe_view(routes[i].previous), Checks { version: a.version, codec: h.codec }, after));
    assert(u.channels.lookup(name@) == Some(after));
}

/// The invites of a channel survive: those that it had, each with its secret, its
/// expiry and whoever redeemed it, in their order, and no others.
pub proof fn invites_survive(name: String, before: ChannelState, after: ChannelState, w: Writer, version: u8, k: Seq<u8>)
    requires
        channel_came_back(name, before, after, w, version),
        before.invites.wf(),
    ensures
        match (before.invites.lookup(k), after.invites.lookup(k)) {
            (Some(x), Some(y)) => y.secret == x.secret && y.expiry == x.expiry && y.consumed == x.consumed,
            (None, None) => true,
            _ => false,
        },
        after.invite_order@ == before.invite_order@,
{
    reveal(body_good);
    let order = before.invite_order@;
    let e: Seq<InviteView> = all_entries(order, &before.invites);
    every_item_has_its_entry(order, order.len(), &before.invites);
    let role = role_of(name@, &before, *w.codec)->0;
    let cw = ChannelWriting { codec: w.codec, name: &name, role: &role, channel: &before };
    assert(ledger_entry(&before, cw).invites == e);
    let by = Journals { codec: w.codec };
    assert(holds_all::<Journals, InviteFrame>(e, after.invites, by));
    assert(after.invite_order@ =~= order);
    let ids = Seq::new(order.len(), |j: int| order[j]@);
    assert forall|x: int, y: int| 0 <= x < y < ids.len() implies ids[x] != ids[y] by {
        assert(entry_keys::<InviteFrame>(e)[x] != entry_keys::<InviteFrame>(e)[y]);
        assert(e[x].invite_id == order[x] && e[y].invite_id == order[y]);
        if ids[x] == ids[y] {
            lemma_same_array(order[x], order[y]);
        }
    }
    assert forall|x: int| 0 <= x < ids.len() implies before.invites.keys().contains(#[trigger] ids[x]) by {
        no_item_is_refused(order, order.len(), &before.invites, x);
        assert(before.invites.has(order[x]@));
    }
    assert(before.invites.keys().len() == ids.len());
    if before.invites.has(k) {
        lemma_all_listed(before.invites.keys(), ids, k);
        let x = ids.index_of(k);
        assert(order[x]@ == k);
        assert(e[x] == order[x].entry(&before.invites));
        assert(<InviteFrame as Live<Journals>>::key(e[x]) == k);
        assert(<InviteFrame as Live<Journals>>::kept(e[x], by));
    } else {
        assert(!named::<Journals, InviteFrame>(e, k, by)) by {
            if named::<Journals, InviteFrame>(e, k, by) {
                let x = choose|x: int|
                    0 <= x < e.len() && <InviteFrame as Live<Journals>>::kept(e[x], by) && <InviteFrame as Live<Journals>>::key(#[trigger] e[x]) == k;
                assert(ids[x] == k);
            }
        }
    }
}

/// The end-to-end law for invites: whatever a node knew of an invite when its archive
/// was written, it knows after the archive was reopened, that it was redeemed among
/// it.
pub proof fn invites_survive_a_restart(
    st: &NodeState,
    w: Writer,
    bytes: Vec<u8>,
    node: NodeState,
    h: Host,
    t: Reopened,
    u: NodeState,
    i: int,
    k: Seq<u8>,
)
    requires
        encodes(st, w, Ok(bytes)),
        readable(st, w),
        h.keys == w.keys,
        h.codec == w.codec,
        admitted(node, bytes@, Reader { keys: h.keys, codec: h.codec, p: w.p }) == Ok::<ArchiveView, Error>(t.archive@),
        reopens(node, t.archive@, h, w.p, t),
        goes_on(node, t.archive@, t.parts, t.joins, t.channels, u),
        0 <= i < st.channels.entries@.len(),
        st.channels.entries@[i].1.invites.wf(),
    ensures
        ({
            let (name, before) = st.channels.entries@[i];
            u.channels.lookup(name@) matches Some(after) && match (before.invites.lookup(k), after.invites.lookup(k)) {
                (Some(x), Some(y)) => y.secret == x.secret && y.expiry == x.expiry && y.consumed == x.consumed,
                (None, None) => true,
                _ => false,
            }
        }),
{
    every_channel_comes_back(st, w, bytes, node, h, t, u, i);
    let (name, before) = st.channels.entries@[i];
    invites_survive(name, before, u.channels.lookup(name@)->0, w, written_version(*st, w.replaced), k);
}

/// What a channel is stays: whether it is public, whether the node owns it, and its
/// role.
pub proof fn channels_stay_what_they_are(name: String, before: ChannelState, after: ChannelState, w: Writer, version: u8)
    requires
        channel_came_back(name, before, after, w, version),
    ensures
        after.public == before.public,
        after.owner == before.owner,
        after.blob@ == before.blob@,
{
}

/// The answers to requests for admission survive: those that were given, each with
/// its name, its pseudonym and its welcome, in their order, and no others.
pub proof fn admissions_survive(name: String, before: ChannelState, after: ChannelState, w: Writer, version: u8, k: Seq<u8>)
    requires
        channel_came_back(name, before, after, w, version),
        before.admission_cache.wf(),
    ensures
        match (before.admission_cache.lookup(k), after.admission_cache.lookup(k)) {
            (Some(x), Some(y)) => y.name@ == x.name@ && y.pseudonym == x.pseudonym && y.welcome@ == x.welcome@,
            (None, None) => true,
            _ => false,
        },
        after.admission_cache_order@ == before.admission_cache_order@,
{
    reveal(body_good);
    let order = before.admission_cache_order@;
    let role = role_of(name@, &before, *w.codec)->0;
    let cw = ChannelWriting { codec: w.codec, name: &name, role: &role, channel: &before };
    let e: Seq<AdmissionView> = all_entries(order, cw);
    every_item_has_its_entry(order, order.len(), cw);
    assert(ledger_entry(&before, cw).admissions == e);
    let by = Journals { codec: w.codec };
    assert(holds_all::<Journals, AdmissionFrame>(e, after.admission_cache, by));
    assert(after.admission_cache_order@ =~= order);
    let ids = Seq::new(order.len(), |j: int| order[j]@);
    assert forall|x: int, y: int| 0 <= x < y < ids.len() implies ids[x] != ids[y] by {
        assert(entry_keys::<AdmissionFrame>(e)[x] != entry_keys::<AdmissionFrame>(e)[y]);
        assert(e[x].request_id == order[x] && e[y].request_id == order[y]);
        if ids[x] == ids[y] {
            lemma_same_array(order[x], order[y]);
        }
    }
    assert forall|x: int| 0 <= x < ids.len() implies before.admission_cache.keys().contains(#[trigger] ids[x]) by {
        no_item_is_refused(order, order.len(), cw, x);
        assert(before.admission_cache.has(order[x]@));
    }
    assert(before.admission_cache.keys().len() == ids.len());
    if before.admission_cache.has(k) {
        lemma_all_listed(before.admission_cache.keys(), ids, k);
        let x = ids.index_of(k);
        assert(order[x]@ == k);
        assert(e[x] == order[x].entry(cw));
        assert(<AdmissionFrame as Live<Journals>>::key(e[x]) == k);
        assert(<AdmissionFrame as Live<Journals>>::kept(e[x], by));
    } else {
        assert(!named::<Journals, AdmissionFrame>(e, k, by)) by {
            if named::<Journals, AdmissionFrame>(e, k, by) {
                let x = choose|x: int|
                    0 <= x < e.len() && <AdmissionFrame as Live<Journals>>::kept(e[x], by) && <AdmissionFrame as Live<Journals>>::key(
                        #[trigger] e[x],
                    ) == k;
                assert(ids[x] == k);
            }
        }
    }
}

/// The acknowledgements of commits survive: those that were sent, each with its
/// route and its text, in their order, and no others.
pub proof fn commit_acknowledgements_survive(name: String, before: ChannelState, after: ChannelState, w: Writer, version: u8, k: Seq<u8>)
    requires
        channel_came_back(name, before, after, w, version),
        before.commit_ack_cache.wf(),
    ensures
        match (before.commit_ack_cache.lookup(k), after.commit_ack_cache.lookup(k)) {
            (Some(x), Some(y)) => y.route == x.route && y.wire@ == x.wire@,
            (None, None) => true,
            _ => false,
        },
        after.commit_ack_order@ == before.commit_ack_order@,
{
    reveal(body_good);
    let order = before.commit_ack_order@;
    let role = role_of(name@, &before, *w.codec)->0;
    let cw = ChannelWriting { codec: w.codec, name: &name, role: &role, channel: &before };
    let e: Seq<CommitAckView> = all_entries::<ChannelWriting, [u8; 16]>(order, cw);
    every_item_has_its_entry::<ChannelWriting, [u8; 16]>(order, order.len(), cw);
    assert(ledger_entry(&before, cw).commit_acks == e);
    let by = Journals { codec: w.codec };
    assert(holds_all::<Journals, CommitAckFrame>(e, after.commit_ack_cache, by));
    assert(after.commit_ack_order@ =~= order);
    let ids = Seq::new(order.len(), |j: int| order[j]@);
    assert forall|x: int, y: int| 0 <= x < y < ids.len() implies ids[x] != ids[y] by {
        assert(entry_keys::<CommitAckFrame>(e)[x] != entry_keys::<CommitAckFrame>(e)[y]);
        assert(e[x].message_id == order[x] && e[y].message_id == order[y]);
        if ids[x] == ids[y] {
            lemma_same_array(order[x], order[y]);
        }
    }
    assert forall|x: int| 0 <= x < ids.len() implies before.commit_ack_cache.keys().contains(#[trigger] ids[x]) by {
        no_item_is_refused::<ChannelWriting, [u8; 16]>(order, order.len(), cw, x);
        assert(before.commit_ack_cache.lookup(order[x]@) is Some);
    }
    assert(before.commit_ack_cache.keys().len() == ids.len());
    if before.commit_ack_cache.has(k) {
        lemma_all_listed(before.commit_ack_cache.keys(), ids, k);
        let x = ids.index_of(k);
        assert(order[x]@ == k);
        no_item_is_refused::<ChannelWriting, [u8; 16]>(order, order.len(), cw, x);
        routes_read_as_written(*w.codec, before.commit_ack_cache.at(k).route);
        assert(e[x] == <[u8; 16] as Stored<ChannelWriting>>::entry(&order[x], cw));
        assert(<CommitAckFrame as Live<Journals>>::key(e[x]) == k);
        assert(<CommitAckFrame as Live<Journals>>::kept(e[x], by));
    } else {
        assert(!named::<Journals, CommitAckFrame>(e, k, by)) by {
            if named::<Journals, CommitAckFrame>(e, k, by) {
                let x = choose|x: int|
                    0 <= x < e.len() && <CommitAckFrame as Live<Journals>>::kept(e[x], by) && <CommitAckFrame as Live<Journals>>::key(
                        #[trigger] e[x],
                    ) == k;
                assert(ids[x] == k);
            }
        }
    }
}

/// The acknowledgements that have no route yet survive: those that wait, each with
/// its text, in their order, and no others.
pub proof fn unrouted_acknowledgements_survive(
    name: String,
    before: ChannelState,
    after: ChannelState,
    w: Writer,
    version: u8,
    k: ([u8; 16], [u8; 32]),
)
    requires
        channel_came_back(name, before, after, w, version),
        before.unrouted_ack_journal.wf(),
    ensures
        match (before.unrouted_ack_journal.lookup(k), after.unrouted_ack_journal.lookup(k)) {
            (Some(x), Some(y)) => y@ == x@,
            (None, None) => true,
            _ => false,
        },
        views(after.unrouted_ack_order@) == views(before.unrouted_ack_order@),
{
    reveal(body_good);
    let order = before.unrouted_ack_order@;
    let role = role_of(name@, &before, *w.codec)->0;
    let cw = ChannelWriting { codec: w.codec, name: &name, role: &role, channel: &before };
    let e: Seq<UnroutedView> = all_entries(order, cw);
    every_item_has_its_entry(order, order.len(), cw);
    assert(ledger_entry(&before, cw).unrouted == e);
    let by = Journals { codec: w.codec };
    assert(holds_all::<Journals, UnroutedFrame>(e, after.unrouted_ack_journal, by));
    let ids = views(order);
    assert forall|x: int| 0 <= x < ids.len() implies #[trigger] ids[x] == (e[x].original_id, e[x].sender) by {
        assert(e[x] == order[x].entry(cw));
    }
    assert(views(after.unrouted_ack_order@) =~= ids);
    assert forall|x: int, y: int| 0 <= x < y < ids.len() implies ids[x] != ids[y] by {
        assert(!(e[x].original_id == e[y].original_id && e[x].sender == e[y].sender));
    }
    assert forall|x: int| 0 <= x < ids.len() implies before.unrouted_ack_journal.keys().contains(#[trigger] ids[x]) by {
        no_item_is_refused(order, order.len(), cw, x);
        assert(before.unrouted_ack_journal.lookup(order[x]@) is Some);
    }
    assert(before.unrouted_ack_journal.keys().len() == ids.len());
    if before.unrouted_ack_journal.has(k) {
        lemma_all_listed(before.unrouted_ack_journal.keys(), ids, k);
        let x = ids.index_of(k);
        assert(order[x]@ == k);
        assert(e[x] == order[x].entry(cw));
        assert(<UnroutedFrame as Live<Journals>>::key(e[x]) == k);
        assert(<UnroutedFrame as Live<Journals>>::kept(e[x], by));
    } else {
        assert(!named::<Journals, UnroutedFrame>(e, k, by)) by {
            if named::<Journals, UnroutedFrame>(e, k, by) {
                let x = choose|x: int|
                    0 <= x < e.len() && <UnroutedFrame as Live<Journals>>::kept(e[x], by) && <UnroutedFrame as Live<Journals>>::key(
                        #[trigger] e[x],
                    ) == k;
                assert(ids[x] == k);
            }
        }
    }
}

/// The control traffic that waits survives, piece by piece and in its order; and so
/// does what is known of completed removals.
pub proof fn control_and_removals_survive(name: String, before: ChannelState, after: ChannelState, w: Writer, version: u8)
    requires
        channel_came_back(name, before, after, w, version),
        version >= 8,
    ensures
        after.pending_control@.len() == before.pending_control@.len(),
        forall|i: int|
            0 <= i < before.pending_control@.len() ==> (#[trigger] after.pending_control@[i]).route == before.pending_control@[i].route
                && after.pending_control@[i].wire@ == before.pending_control@[i].wire@,
        views(after.completed_removals@) == views(before.completed_removals@),
{
    let role = role_of(name@, &before, *w.codec)->0;
    let cw = ChannelWriting { codec: w.codec, name: &name, role: &role, channel: &before };
    let s = before.pending_control@;
    every_item_has_its_entry(s, s.len(), cw);
    let e = ledger_entry(&before, cw).control;
    assert forall|i: int| 0 <= i < s.len() implies (#[trigger] after.pending_control@[i]).route == s[i].route
        && after.pending_control@[i].wire@ == s[i].wire@ by {
        assert(e[i] == s[i].entry(cw));
        no_item_is_refused(s, s.len(), cw, i);
        routes_read_as_written(*w.codec, s[i].route);
    }
    let r = before.completed_removals@;
    every_item_has_its_entry::<ChannelWriting, String>(r, r.len(), cw);
    let f = ledger_entry(&before, cw).removals;
    assert forall|i: int| 0 <= i < r.len() implies (#[trigger] after.completed_removals@[i])@ == r[i]@ by {
        assert(f[i] == <String as Stored<ChannelWriting>>::entry(&r[i], cw));
    }
    assert(views(after.completed_removals@) =~= views(r));
}

/// Those who are expected to answer, and those who did, survive.
pub open spec fn same_recipients(
    expected: Table<[u8; 32], ChannelRoute>,
    acknowledged: Seq<[u8; 32]>,
    after_expected: Table<[u8; 32], ChannelRoute>,
    after_acknowledged: Seq<[u8; 32]>,
) -> bool {
    after_acknowledged == acknowledged && forall|k: Seq<u8>| #[trigger] after_expected.lookup(k) == expected.lookup(k)
}

proof fn lemma_recipients(
    expected: Table<[u8; 32], ChannelRoute>,
    acknowledged: Seq<[u8; 32]>,
    after_expected: Table<[u8; 32], ChannelRoute>,
    after_acknowledged: Seq<[u8; 32]>,
    codec: &Codec,
    c: Checks,
)
    requires
        recipients_are(expected_entry(acknowledged, expected, codec), Journals { codec }, after_expected, after_acknowledged),
        recipients_good(expected_entry(acknowledged, expected, codec), c),
        expected_refusal(acknowledged, expected, codec) is None,
        codec.routes.wf(),
    ensures
        same_recipients(expected, acknowledged, after_expected, after_acknowledged),
{
    let s = expected.entries@;
    let e = expected_entry(acknowledged, expected, codec).expected;
    let by = Journals { codec };
    every_item_has_its_entry(s, s.len(), codec);
    assert(after_acknowledged =~= acknowledged);
    let keys = expected.keys();
    assert forall|k: Seq<u8>| #[trigger] after_expected.lookup(k) == expected.lookup(k) by {
        lemma_place(keys, k);
        if expected.has(k) {
            let p = place(keys, k);
            assert(s[p].0@ == k);
            assert(e[p] == s[p].entry(codec));
            no_item_is_refused(s, s.len(), codec, p);
            routes_read_as_written(*codec, s[p].1);
            assert(<RecipientFrame as Live<Journals>>::key(e[p]) == k);
            assert(<RecipientFrame as Live<Journals>>::kept(e[p], by));
        } else {
            assert(!named::<Journals, RecipientFrame>(e, k, by)) by {
                if named::<Journals, RecipientFrame>(e, k, by) {
                    let x = choose|x: int|
                        0 <= x < e.len() && <RecipientFrame as Live<Journals>>::kept(e[x], by) && <RecipientFrame as Live<Journals>>::key(
                            #[trigger] e[x],
                        ) == k;
                    assert(keys[x] == k);
                }
            }
        }
    }
}

/// The messages that wait for answers survive: those that waited, each with its text,
/// with those expected to answer at their routes, and with those who did; and no
/// others.
pub proof fn waiting_channel_messages_survive(name: String, before: ChannelState, after: ChannelState, w: Writer, version: u8, k: Seq<u8>)
    requires
        channel_came_back(name, before, after, w, version),
    ensures
        match (before.message_outbox.lookup(k), after.message_outbox.lookup(k)) {
            (Some(x), Some(y)) => y.wire@ == x.wire@ && same_recipients(x.expected, x.acknowledged@, y.expected, y.acknowledged@),
            (None, None) => true,
            _ => false,
        },
{
    reveal(body_good);
    let role = role_of(name@, &before, *w.codec)->0;
    let cw = ChannelWriting { codec: w.codec, name: &name, role: &role, channel: &before };
    let s = before.message_outbox.entries@;
    let e = outbox_entry(&before, cw).messages;
    let by = Journals { codec: w.codec };
    every_item_has_its_entry(s, s.len(), cw);
    assert(holds_all::<Journals, MessageFrame>(e, after.message_outbox, by));
    let keys = before.message_outbox.keys();
    lemma_place(keys, k);
    if before.message_outbox.has(k) {
        let p = place(keys, k);
        assert(s[p].0@ == k);
        assert(e[p] == s[p].entry(cw));
        no_item_is_refused(s, s.len(), cw, p);
        assert(<MessageFrame as Live<Journals>>::key(e[p]) == k);
        assert(<MessageFrame as Live<Journals>>::kept(e[p], by));
        let y = after.message_outbox.lookup(k)->0;
        assert(<MessageFrame as Live<Journals>>::stands_for(e[p], by, y));
        let c = Checks { version, codec: w.codec };
        assert(recipients_good(e[p].recipients, c));
        lemma_recipients(s[p].1.expected, s[p].1.acknowledged@, y.expected, y.acknowledged@, w.codec, c);
    } else {
        assert(!named::<Journals, MessageFrame>(e, k, by)) by {
            if named::<Journals, MessageFrame>(e, k, by) {
                let x = choose|x: int|
                    0 <= x < e.len() && <MessageFrame as Live<Journals>>::kept(e[x], by) && <MessageFrame as Live<Journals>>::key(
                        #[trigger] e[x],
                    ) == k;
                assert(e[x] == s[x].entry(cw));
                assert(keys[x] == k);
            }
        }
    }
}

/// A membership commit that waits for answers survives, with its number, its epoch,
/// its text, those expected to answer and those who did. Where none waited, none
/// waits.
pub proof fn a_waiting_commit_survives(name: String, before: ChannelState, after: ChannelState, w: Writer, version: u8)
    requires
        channel_came_back(name, before, after, w, version),
    ensures
        match (before.membership_outbox, after.membership_outbox) {
            (Some(x), Some(y)) => y.commit_id == x.commit_id && y.epoch == x.epoch && y.commit@ == x.commit@ && same_recipients(
                x.expected,
                x.acknowledged@,
                y.expected,
                y.acknowledged@,
            ),
            (None, None) => true,
            _ => false,
        },
{
    reveal(body_good);
    let c = Checks { version, codec: w.codec };
    match (before.membership_outbox, after.membership_outbox) {
        (Some(x), Some(y)) => {
            lemma_recipients(x.expected, x.acknowledged@, y.expected, y.acknowledged@, w.codec, c);
        },
        _ => {},
    }
}

proof fn lemma_current_members(s: Seq<MemberView>, n: nat, k: ChannelFacts, m: MemberView)
    requires
        n <= s.len(),
    ensures
        current_members(s, n, k).contains(m) <==> is_current(m, k) && exists|i: int| 0 <= i < n && #[trigger] s[i] == m,
    decreases n,
{
    if n > 0 {
        let j = (n - 1) as nat;
        lemma_current_members(s, j, k, m);
        let before = current_members(s, j, k);
        let now = current_members(s, n, k);
        if before.contains(m) {
            assert(now[before.index_of(m)] == m);
        }
        if is_current(s[j as int], k) {
            assert(now[before.len() as int] == s[j as int]);
            if now.contains(m) {
                let x = now.index_of(m);
                if x < before.len() {
                    assert(before[x] == m);
                }
            }
        }
    }
}

/// A list of members keeps exactly those whom the role still knows under that name
/// by the pseudonym of their route.
pub proof fn directories_are_held_to_the_role(s: Seq<MemberView>, k: ChannelFacts, m: MemberView)
    ensures
        current_members(s, s.len(), k).contains(m) <==> s.contains(m) && (k.c.codec.route(m.route) matches Some(route) && k.role.named(
            m.member,
        ) == Some(route.pseudonym)),
{
    lemma_current_members(s, s.len(), k, m);
    if s.contains(m) {
        assert(s[s.index_of(m)] == m);
    }
}

proof fn lemma_member_entry(s: Seq<(String, ChannelRoute)>, n: nat, cw: ChannelWriting, m: MemberView)
    requires
        n <= s.len(),
    ensures
        entries_of(s, n, cw).contains(m) <==> exists|i: int| 0 <= i < n && (#[trigger] s[i]).kept(cw) && s[i].entry(cw) == m,
    decreases n,
{
    if n > 0 {
        let j = (n - 1) as nat;
        lemma_member_entry(s, j, cw, m);
        let before = entries_of(s, j, cw);
        let now = entries_of(s, n, cw);
        if before.contains(m) {
            assert(now[before.index_of(m)] == m);
        }
        if s[j as int].kept(cw) {
            assert(now[before.len() as int] == s[j as int].entry(cw));
            if now.contains(m) {
                let x = now.index_of(m);
                if x < before.len() {
                    assert(before[x] == m);
                }
            }
        }
    }
}

proof fn lemma_own_name(entries: Seq<(String, ChannelRoute)>, n: nat, pseudonym: [u8; 32])
    requires
        n <= entries.len(),
    ensures
        own_name(entries, n, pseudonym) matches Some(name) ==> exists|i: int|
            0 <= i < n && (#[trigger] entries[i]).0@ == name && entries[i].1.pseudonym == pseudonym,
        own_name(entries, n, pseudonym) is None ==> forall|i: int| 0 <= i < n ==> (#[trigger] entries[i]).1.pseudonym != pseudonym,
    decreases n,
{
    if n > 0 {
        lemma_own_name(entries, (n - 1) as nat, pseudonym);
        let last = entries[n - 1];
        if own_name(entries, n, pseudonym) is Some && own_name(entries, (n - 1) as nat, pseudonym) is None {
            assert(entries[n - 1].1.pseudonym == pseudonym);
        }
    }
}

/// Every other member that the role still knows by the pseudonym of its route is in
/// the directory after a restart, with that route.
pub proof fn known_members_stay_reachable(name: String, before: ChannelState, after: ChannelState, w: Writer, version: u8, member: Seq<char>)
    requires
        channel_came_back(name, before, after, w, version),
        before.directory.wf(),
        before.directory.lookup(member) matches Some(route) && ({
            let role = role_of(name@, &before, *w.codec)->0;
            route.pseudonym != role.pseudonym && role.named(member) == Some(route.pseudonym)
        }),
    ensures
        after.directory.lookup(member) == before.directory.lookup(member),
{
    let role = role_of(name@, &before, *w.codec)->0;
    let cw = ChannelWriting { codec: w.codec, name: &name, role: &role, channel: &before };
    let s = before.directory.entries@;
    let keys = before.directory.keys();
    lemma_place(keys, member);
    let p = place(keys, member);
    let route = s[p].1;
    assert(s[p].0@ == member);
    assert(s[p].kept(cw));
    no_item_is_refused(s, s.len(), cw, p);
    routes_read_as_written(*w.codec, route);
    let m = s[p].entry(cw);
    let written = ArchivedChannelView {
        head: ChannelHeadView { name: name@, public: before.public, owner: before.owner, blob: before.blob@ },
        body: ChannelBodyView { outbox: outbox_entry(&before, cw), ledger: ledger_entry(&before, cw) },
    };
    let facts = facts_of(written, version, w.codec);
    let all = all_entries(s, cw);
    lemma_member_entry(s, s.len(), cw, m);
    assert(all.contains(m));
    lemma_current_members(all, all.len(), facts, m);
    assert(all[all.index_of(m)] == m);
    let e = current_members(all, all.len(), facts);
    assert(e.contains(m));
    let x = e.index_of(m);
    let by = Journals { codec: w.codec };
    let (own, previous) = choose|own: OwnedChannelRouteView, previous: Option<OwnedChannelRouteView>| #[trigger]
        channel_is(
            ArchivedChannelView { head: written.head, body: reconciled(written.body, facts) },
            own,
            previous,
            Checks { version, codec: w.codec },
            after,
        );
    let me = own_name(s, s.len(), role.pseudonym);
    assert(directory_is(e, me, own.public, by, after.directory));
    let others = choose|others: Table<String, ChannelRoute>| #[trigger]
        holds_all::<Journals, MemberFrame>(e, others, by) && forall|k: Seq<char>| #[trigger]
            after.directory.lookup(k) == (if me == Some(k) && by.codec.validates(own.public) {
                Some(own.public)
            } else {
                others.lookup(k)
            });
    assert(<MemberFrame as Live<Journals>>::key(e[x]) == member);
    assert(<MemberFrame as Live<Journals>>::kept(e[x], by));
    assert(others.lookup(member) == Some(route));
    lemma_own_name(s, s.len(), role.pseudonym);
    if me == Some(member) {
        let j = choose|j: int| 0 <= j < s.len() && (#[trigger] s[j]).0@ == member && s[j].1.pseudonym == role.pseudonym;
        assert(keys[j] == member);
        assert(j != p);
        if j < p {
            assert(keys[j] != keys[p]);
        } else {
            assert(keys[p] != keys[j]);
        }
    }
    assert(after.directory.lookup(member) == others.lookup(member));
}

proof fn lemma_routes_listed(channels: Seq<(String, ChannelState)>, n: nat, i: int)
    requires
        0 <= i < n <= channels.len(),
        has_routes(channels[i].1),
        forall|a: int, b: int| 0 <= a < b < channels.len() ==> (#[trigger] channels[a]).0@ != (#[trigger] channels[b]).0@,
    ensures
        routes_named(route_views(channels, n), route_views(channels, n).len(), channels[i].0@) == Some(
            NamedRoutesView {
                name: channels[i].0@,
                current: maybe_view(current_route(channels[i].1)),
                previous: maybe_view(channels[i].1.previous_own_route),
            },
        ),
    decreases n,
{
    let m = (n - 1) as nat;
    let before = route_views(channels, m);
    let now = route_views(channels, n);
    if i < m {
        lemma_routes_listed(channels, m, i);
        lemma_named_prefix(before, now, before.len(), channels[i].0@);
        if now.len() > before.len() {
            assert(routes_named(now, before.len(), channels[i].0@) is Some);
        }
    } else {
        lemma_not_listed(channels, m, channels[i].0@);
        lemma_named_prefix(before, now, before.len(), channels[i].0@);
    }
}

proof fn lemma_named_prefix(a: Seq<NamedRoutesView>, b: Seq<NamedRoutesView>, n: nat, name: Seq<char>)
    requires
        n <= a.len() <= b.len(),
        forall|i: int| 0 <= i < a.len() ==> #[trigger] b[i] == a[i],
    ensures
        routes_named(b, n, name) == routes_named(a, n, name),
    decreases n,
{
    if n > 0 {
        lemma_named_prefix(a, b, (n - 1) as nat, name);
        assert(b[n - 1] == a[n - 1]);
    }
}

proof fn lemma_not_listed(channels: Seq<(String, ChannelState)>, n: nat, name: Seq<char>)
    requires
        n <= channels.len(),
        forall|a: int| 0 <= a < n ==> (#[trigger] channels[a]).0@ != name,
    ensures
        routes_named(route_views(channels, n), route_views(channels, n).len(), name) is None,
    decreases n,
{
    if n > 0 {
        let m = (n - 1) as nat;
        lemma_not_listed(channels, m, name);
        let before = route_views(channels, m);
        lemma_named_prefix(before, route_views(channels, n), before.len(), name);
        assert(channels[m as int].0@ != name);
    }
}

/// From end to end: a channel's own route survives, with its secret and its aliases,
/// and so does the one that was in force before it.
pub proof fn own_routes_survive_a_restart(st: &NodeState, w: Writer, bytes: Vec<u8>, node: NodeState, h: Host, t: Reopened, u: NodeState, i: int)
    requires
        encodes(st, w, Ok(bytes)),
        readable(st, w),
        h.keys == w.keys,
        h.codec == w.codec,
        admitted(node, bytes@, Reader { keys: h.keys, codec: h.codec, p: w.p }) == Ok::<ArchiveView, Error>(t.archive@),
        reopens(node, t.archive@, h, w.p, t),
        goes_on(node, t.archive@, t.parts, t.joins, t.channels, u),
        0 <= i < st.channels.entries@.len(),
        st.channels.wf(),
        st.channels.entries@[i].1.own_route.aliases@.len() > 0,
    ensures
        ({
            let (name, before) = st.channels.entries@[i];
            u.channels.lookup(name@) matches Some(after) && after.own_route@ == before.own_route@ && maybe_view(after.previous_own_route)
                == maybe_view(before.previous_own_route)
        }),
{
    archive_reads_back(st, w, bytes);
    let grants = choose|grants: Seq<SealedView>| #[trigger]
        grants_kept(st.forward_grants@, grants, w) && decoded(bytes@, reader(w)) == Ok::<ArchiveView, Error>(restored(st, grants, w));
    let a = t.archive@;
    assert(a == restored(st, grants, w));
    let s = st.channels.entries@;
    let (name, before) = s[i];
    every_item_has_its_entry(s, s.len(), channels_writing(w));
    let routes = choose|routes: Seq<SettledRoute>|
        routes.len() == a.channels.len() && all_settled(a, routes, h, w.p) && #[trigger] channels_are(a, routes, h.codec, t.channels);
    assert(channel_entries(st, w)[i] == s[i].entry(channels_writing(w)));
    assert(a.channels[i].head.name == name@);
    let after = t.channels.lookup(a.channels[i].head.name)->0;
    assert(channel_is(a.channels[i], routes[i].own@, maybe_view(routes[i].previous), Checks { version: a.version, codec: h.codec }, after));
    assert forall|x: int, y: int| 0 <= x < y < s.len() implies (#[trigger] s[x]).0@ != (#[trigger] s[y]).0@ by {
        assert(st.channels.keys()[x] != st.channels.keys()[y]);
    }
    lemma_routes_listed(s, s.len(), i);
    assert(retained_routes(a, name@) == (Some(before.own_route@), maybe_view(before.previous_own_route)));
    let out: Result<(OwnedChannelRouteView, Option<OwnedChannelRouteView>), Error> = Ok(
        (routes[i].own@, maybe_view(routes[i].previous)),
    );
    assert(settles(a, i, out, h, w.p));
    let (n, r) = choose|n: String, r: RoleFacts|
        n@ == a.channels[i].head.name && h.codec.role(a.channels[i].head.owner, a.channels[i].head.name, a.channels[i].head.blob) == Some(r)
            && #[trigger] offline_route(a, i, &n, &r, h, w.p) == out;
    assert(out == Ok::<(OwnedChannelRouteView, Option<OwnedChannelRouteView>), Error>(
        (before.own_route@, maybe_view(before.previous_own_route)),
    ));
    assert(u.channels.lookup(name@) == Some(after));
}

} // verus!
