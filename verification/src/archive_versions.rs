//! What each version of an archive keeps, and when what it keeps is in order.

use vstd::prelude::*;
use vstd::utf8::encode_utf8;
use crate::archive::{all_may_wait, central_stage, channels_at, channel_stage, core_only, count_at, decoded, field_at, inbox_stage, join_at, joins_at, layout_of, magic_version, may_wait, number_at, policy_stage, prepared_stage, tls_stage, trailer_at, trailer_stage, whole_stage, with_trailer, ArchiveView, Reader};
use crate::archive_check::{body_good, core_good, delivery_good, entry_keys, ids_expected, in_order, numbered, policy_good, recipients_good, removal_key, ChannelFacts, Checks, Entry};
use crate::archive_frame::{AdmissionFrame, ChannelBodyView, CommitAckFrame, ControlFrame, CoreFrame, CoreView, DeliveryFrame, DeliveryView, ExpectedView, IdFrame, InviteFrame, NameFrame, PeerFrame, PeerRouteFrame, PendingFrame, PendingView, PolicyFrame, PolicyView, ProcessedFrame, RecipientFrame, RecipientView, SessionFrame};
use crate::codec::Codec;
use crate::record::reads;
use crate::sealed_parts::{opened_central, opened_inbox, opened_tls};
use crate::table::distinct;

verus! {

proof fn lemma_end(buf: Seq<u8>, at: int, a: ArchiveView, d: Reader)
    requires
        whole_stage(buf, at, a, d) is Ok,
    ensures
        ({
            let r = whole_stage(buf, at, a, d)->Ok_0;
            &&& r == (ArchiveView { receipts: r.receipts, ..a })
            &&& a.version < 21 ==> r.receipts == a.receipts
            &&& a.version >= 21 ==> r.receipts is Some
            &&& !(a.machine_owned && a.central_ownership is Some)
            &&& all_may_wait(a, *d.codec)
        }),
{
}

proof fn lemma_trailer(buf: Seq<u8>, at: int, a: ArchiveView, d: Reader)
    requires
        trailer_stage(buf, at, a, d) is Ok,
    ensures
        ({
            let r = trailer_stage(buf, at, a, d)->Ok_0;
            &&& r == (ArchiveView {
                receipts: r.receipts,
                machine_owned: r.machine_owned,
                owner_aliases: r.owner_aliases,
                routing_directory: r.routing_directory,
                routes: r.routes,
                ..a
            })
            &&& a.version < 21 ==> r.receipts == a.receipts
            &&& a.version >= 21 ==> r.receipts is Some
            &&& !(r.machine_owned && r.central_ownership is Some)
            &&& a.version < 15 ==> r.owner_aliases is None && r.routing_directory is None && !r.machine_owned && r.routes.len() == 0
            &&& a.version == 15 ==> r.owner_aliases is Some && r.routing_directory is None && !r.machine_owned && r.routes.len() == 0
            &&& a.version == 17 ==> r.owner_aliases is Some && r.routing_directory is None && r.routes == a.routes
            &&& a.version >= 18 ==> r.owner_aliases is Some || r.routing_directory is Some
            &&& all_may_wait(ArchiveView { receipts: a.receipts, ..r }, *d.codec)
        }),
{
    reveal(trailer_stage);
    let (t, q) = trailer_at(buf, at, a, d)->Ok_0;
    let b = with_trailer(a, t);
    lemma_end(buf, q, b, d);
    let r = trailer_stage(buf, at, a, d)->Ok_0;
    assert(ArchiveView { receipts: a.receipts, ..r } == b);
}

proof fn lemma_central(buf: Seq<u8>, at: int, a: ArchiveView, d: Reader)
    requires
        central_stage(buf, at, a, d) is Ok,
    ensures
        ({
            let r = central_stage(buf, at, a, d)->Ok_0;
            &&& a.version < 14 ==> r.central_ownership == a.central_ownership
            &&& trailer_facts(a, r, d)
        }),
{
    if a.version < 14 {
        lemma_trailer(buf, at, a, d);
    } else {
        let (sealed, q) = field_at(buf, at)->0;
        let central_ownership = opened_central(sealed, *d.keys, *d.codec)->Ok_0;
        lemma_trailer(buf, q, ArchiveView { central_ownership, ..a }, d);
    }
}

/// What the end of an archive adds to what was read before.
spec fn trailer_facts(a: ArchiveView, r: ArchiveView, d: Reader) -> bool {
    &&& r == (ArchiveView {
        receipts: r.receipts,
        machine_owned: r.machine_owned,
        owner_aliases: r.owner_aliases,
        routing_directory: r.routing_directory,
        routes: r.routes,
        central_ownership: r.central_ownership,
        ..a
    })
    &&& a.version < 21 ==> r.receipts == a.receipts
    &&& a.version >= 21 ==> r.receipts is Some
    &&& !(r.machine_owned && r.central_ownership is Some)
    &&& a.version < 15 ==> r.owner_aliases is None && r.routing_directory is None && !r.machine_owned && r.routes.len() == 0
    &&& a.version == 15 ==> r.owner_aliases is Some && r.routing_directory is None && !r.machine_owned && r.routes.len() == 0
    &&& a.version == 17 ==> r.owner_aliases is Some && r.routing_directory is None && r.routes == a.routes
    &&& a.version >= 18 ==> r.owner_aliases is Some || r.routing_directory is Some
    &&& all_may_wait(ArchiveView { receipts: a.receipts, ..r }, *d.codec)
}

proof fn lemma_tls(buf: Seq<u8>, at: int, a: ArchiveView, d: Reader)
    requires
        tls_stage(buf, at, a, d) is Ok,
    ensures
        ({
            let r = tls_stage(buf, at, a, d)->Ok_0;
            &&& a.version < 13 ==> r.tls_identity == a.tls_identity
            &&& a.version < 14 ==> r.central_ownership == a.central_ownership
            &&& trailer_facts(ArchiveView { tls_identity: r.tls_identity, ..a }, r, d)
        }),
{
    if a.version < 13 {
        lemma_central(buf, at, a, d);
    } else {
        let (sealed, q) = field_at(buf, at)->0;
        if sealed.len() == 0 {
            lemma_central(buf, q, a, d);
        } else {
            let identity = opened_tls(sealed, *d.keys, *d.codec)->Ok_0;
            lemma_central(buf, q, ArchiveView { tls_identity: Some(identity), ..a }, d);
        }
    }
}

proof fn lemma_joins(buf: Seq<u8>, at: int, n: nat, next: u64, version: u8, d: Reader)
    requires
        joins_at(buf, at, n, next, version, d) is Ok,
    ensures
        ({
            let s = joins_at(buf, at, n, next, version, d)->Ok_0.0;
            &&& s.len() == n
            &&& forall|i: int| 0 <= i < s.len() ==> 0 < (#[trigger] s[i]).id < next
        }),
    decreases n,
{
    if n > 0 {
        lemma_joins(buf, at, (n - 1) as nat, next, version, d);
        reveal(join_at);
    }
}

proof fn lemma_prepared(buf: Seq<u8>, at: int, a: ArchiveView, d: Reader)
    requires
        prepared_stage(buf, at, a, d) is Ok,
    ensures
        ({
            let r = prepared_stage(buf, at, a, d)->Ok_0;
            &&& a.version < 12 ==> r.prepared == a.prepared && r.next_prep_id == a.next_prep_id
            &&& a.version >= 12 ==> r.next_prep_id != 0 && r.prepared.len() <= 64 && forall|i: int|
                0 <= i < r.prepared.len() ==> 0 < (#[trigger] r.prepared[i]).id < r.next_prep_id
            &&& a.version < 13 ==> r.tls_identity == a.tls_identity
            &&& a.version < 14 ==> r.central_ownership == a.central_ownership
            &&& trailer_facts(
                ArchiveView { tls_identity: r.tls_identity, prepared: r.prepared, next_prep_id: r.next_prep_id, ..a },
                r,
                d,
            )
        }),
{
    if a.version < 12 {
        lemma_tls(buf, at, a, d);
    } else {
        let (next, q1) = number_at(buf, at)->0;
        let (n, q2) = count_at(buf, q1, 64)->0;
        let (prepared, q) = joins_at(buf, q2, n, next, a.version, d)->Ok_0;
        lemma_joins(buf, q2, n, next, a.version, d);
        lemma_tls(buf, q, ArchiveView { next_prep_id: next, prepared, ..a }, d);
    }
}

proof fn lemma_inbox(buf: Seq<u8>, at: int, a: ArchiveView, d: Reader)
    requires
        inbox_stage(buf, at, a, d) is Ok,
    ensures
        ({
            let r = inbox_stage(buf, at, a, d)->Ok_0;
            &&& a.version < 11 ==> r.application_inbox == a.application_inbox
            &&& a.version < 12 ==> r.prepared == a.prepared && r.next_prep_id == a.next_prep_id
            &&& a.version >= 12 ==> r.next_prep_id != 0 && r.prepared.len() <= 64 && forall|i: int|
                0 <= i < r.prepared.len() ==> 0 < (#[trigger] r.prepared[i]).id < r.next_prep_id
            &&& a.version < 13 ==> r.tls_identity == a.tls_identity
            &&& a.version < 14 ==> r.central_ownership == a.central_ownership
            &&& trailer_facts(
                ArchiveView {
                    tls_identity: r.tls_identity,
                    prepared: r.prepared,
                    next_prep_id: r.next_prep_id,
                    application_inbox: r.application_inbox,
                    ..a
                },
                r,
                d,
            )
        }),
{
    reveal(inbox_stage);
    if a.version < 11 {
        lemma_prepared(buf, at, a, d);
    } else {
        let (sealed, q) = field_at(buf, at)->0;
        let application_inbox = opened_inbox(sealed, *d.keys, *d.codec, *d.p)->Ok_0;
        lemma_prepared(buf, q, ArchiveView { application_inbox, ..a }, d);
    }
}

proof fn lemma_channel_count(buf: Seq<u8>, at: int, n: nat, version: u8, d: Reader)
    requires
        channels_at(buf, at, n, version, d) is Ok,
    ensures
        ({
            let (cs, routes, _) = channels_at(buf, at, n, version, d)->Ok_0;
            &&& cs.len() == n
            &&& forall|i: int| 0 <= i < cs.len() ==> encode_utf8((#[trigger] cs[i]).head.name).len() > 0
            &&& version != 17 ==> routes.len() == 0
            &&& version == 17 ==> routes.len() == n
        }),
    decreases n,
{
    if n > 0 {
        lemma_channel_count(buf, at, (n - 1) as nat, version, d);
        reveal(crate::archive::channel_at);
    }
}

/// An archive is of the version that it says, from the second on, and not too long.
/// The application inbox came with the eleventh version, prepared joins with the
/// twelfth, the transport identity with the thirteenth, central ownership with the
/// fourteenth, and the owner's record with the fifteenth, which always holds one, as
/// the seventeenth does; from the eighteenth on there is a record or a routing
/// directory, and from the twenty-first on there are receipts. Before that there is
/// none of it. Machine and central ownership exclude each other.
pub proof fn a_version_holds_what_it_keeps(buf: Seq<u8>, d: Reader)
    requires
        decoded(buf, d) is Ok,
    ensures
        ({
            let a = decoded(buf, d)->Ok_0;
            &&& magic_version(buf) == Some(a.version)
            &&& a.version >= 2
            &&& buf.len() <= 0x1000_0000
            &&& a.channels.len() <= d.p.channel_max
            &&& forall|i: int| 0 <= i < a.channels.len() ==> encode_utf8((#[trigger] a.channels[i]).head.name).len() > 0
            &&& a.version < 11 ==> a.application_inbox.next_sequence == 1 && a.application_inbox.entries.len() == 0
            &&& a.version < 12 ==> a.prepared.len() == 0 && a.next_prep_id == 1
            &&& a.version >= 12 ==> a.next_prep_id != 0 && a.prepared.len() <= 64 && forall|i: int|
                0 <= i < a.prepared.len() ==> 0 < (#[trigger] a.prepared[i]).id < a.next_prep_id
            &&& a.version < 13 ==> a.tls_identity is None
            &&& a.version < 14 ==> a.central_ownership is None
            &&& a.version < 15 ==> a.owner_aliases is None && a.routing_directory is None && !a.machine_owned && a.routes.len() == 0
            &&& a.version == 15 ==> a.owner_aliases is Some && a.routing_directory is None && !a.machine_owned && a.routes.len() == 0
            &&& a.version == 17 ==> a.owner_aliases is Some && a.routing_directory is None && a.routes.len() == a.channels.len()
            &&& a.version >= 18 ==> a.owner_aliases is Some || a.routing_directory is Some
            &&& a.version < 21 ==> a.receipts is None
            &&& a.version >= 21 ==> a.receipts is Some
            &&& !(a.machine_owned && a.central_ownership is Some)
            &&& forall|i: int| 0 <= i < a.core.pending.len() ==> may_wait(#[trigger] a.core.pending[i], a, *d.codec)
        }),
{
    let version = magic_version(buf)->0;
    let (core, q) = reads::<CoreFrame>(layout_of(version, *d.p), buf, 6)->0;
    let a = core_only(version, numbered(core, version));
    let (n, q1) = count_at(buf, q, d.p.channel_max as nat)->0;
    let (channels, routes, q2) = channels_at(buf, q1, n, version, d)->Ok_0;
    lemma_channel_count(buf, q1, n, version, d);
    let b = ArchiveView { channels, routes, ..a };
    assert(channel_stage(buf, q, a, d) == policy_stage(buf, q2, b, d));
    let (policy, q3) = reads::<PolicyFrame>(layout_of(version, *d.p), buf, q2)->0;
    let c = ArchiveView { policy, ..b };
    assert(policy_stage(buf, q2, b, d) == inbox_stage(buf, q3, c, d));
    lemma_inbox(buf, q3, c, d);
    let r = decoded(buf, d)->Ok_0;
    let early = ArchiveView { receipts: None, ..r };
    assert forall|i: int| 0 <= i < r.core.pending.len() implies may_wait(#[trigger] r.core.pending[i], r, *d.codec) by {
        assert(may_wait(early.core.pending[i], early, *d.codec));
    }
}

/// A message waits with cells to send, or without any as a record that can be kept:
/// where routing will find the way, or from the nineteenth version on behind a session
/// with the peer. From the twentieth on a record of a credited session waits either
/// way.
pub proof fn messages_wait_for_a_reason(v: PendingView, a: ArchiveView, codec: Codec)
    ensures
        ({
            let peer = codec.card(v.delivery.card)->0.identity_pk;
            let behind = exists|i: int| 0 <= i < a.core.sessions.len() && (#[trigger] a.core.sessions[i]).peer == peer;
            let credited = exists|i: int|
                0 <= i < a.core.sessions.len() && (#[trigger] a.core.sessions[i]).peer == peer && crate::archive_check::is_credited(
                    a.core.sessions[i].sealed,
                );
            may_wait(v, a, codec) <==> {
                ||| v.delivery.cells.len() > 0
                ||| v.logical is Some && codec.is_durable(v.logical->0) && (a.routing_directory is Some || (a.version >= 19 && behind))
                ||| a.version >= 20 && credited && v.logical is Some && codec.is_direct(v.logical->0)
            }
        }),
{
}

/// Before the fifth version messages are numbered by their place, from one on, and the
/// next number follows them; from the fifth on they keep the numbers that they have.
pub proof fn old_messages_are_numbered_by_place(v: CoreView, version: u8)
    ensures
        version >= 5 ==> numbered(v, version) == v,
        version < 5 && v.pending.len() < u64::MAX ==> {
            let n = numbered(v, version);
            &&& n.head.next_direct_sequence == v.pending.len() + 1
            &&& n.pending.len() == v.pending.len()
            &&& forall|i: int|
                0 <= i < v.pending.len() ==> (#[trigger] n.pending[i]).sequence == i + 1 && n.pending[i] == (PendingView {
                    sequence: n.pending[i].sequence,
                    ..v.pending[i]
                })
            &&& n.sessions == v.sessions && n.peer_routes == v.peer_routes && n.acks == v.acks && n.processed == v.processed
            &&& n.head.exported_ms == v.head.exported_ms && n.head.local_contact_generation == v.head.local_contact_generation
        },
{
}

/// A delivery is in order where its card is that of a peer with a contact, the cells
/// can be carried, and before the sixth version it names a relay with aliases and a
/// path.
pub proof fn deliveries_go_to_someone(v: DeliveryView, c: Checks)
    ensures
        delivery_good(v, c) <==> {
            &&& c.codec.card(v.card) matches Some(info) && info.identity_pk.len() > 0 && info.aliases.len() > 0
            &&& forall|i: int| 0 <= i < v.cells.len() ==> c.codec.carries(#[trigger] v.cells[i])
            &&& c.version < 6 ==> (c.codec.private_card(v.relay) matches Some(info) && (info.provisioning matches Some(relay)
                && relay.aliases.len() > 0 && encode_utf8(relay.frwd_path).len() > 0))
        },
{
}

/// The direct part of an archive is in order exactly where the node's card has a
/// generation; every session is of a peer of its own, in the form of its version; every
/// card is of a peer of its own who has a contact; every message has an identifier and
/// a number of its own, below the next, time left, cells unless its version lets it
/// wait without, and no volatile record; every acknowledgement has cells; and every
/// taken frame has a peer and counter of its own, and cells.
#[verifier::rlimit(40)]
pub proof fn direct_parts_in_order(v: CoreView, c: Checks)
    ensures
        core_good(v, c) <==> {
            &&& v.head.local_contact_generation != 0
            &&& v.head.next_direct_sequence != 0
            &&& forall|i: int|
                0 <= i < v.sessions.len() ==> {
                    let s = #[trigger] v.sessions[i];
                    &&& s.peer.len() > 0
                    &&& c.version < 4 ==> crate::model::views(c.codec.plain_sessions@).contains(s.sealed)
                    &&& c.version >= 4 ==> c.codec.sealed_sessions.has(s.sealed)
                    &&& 4 <= c.version < 20 ==> !crate::archive_check::is_credited(s.sealed)
                }
            &&& forall|i: int, j: int| 0 <= i < j < v.sessions.len() ==> (#[trigger] v.sessions[i]).peer != (#[trigger] v.sessions[j]).peer
            &&& forall|i: int|
                0 <= i < v.peer_routes.len() ==> (#[trigger] v.peer_routes[i]).peer.len() > 0 && (c.codec.card(v.peer_routes[i].card) matches Some(
                    info,
                ) && info.identity_pk == v.peer_routes[i].peer && info.aliases.len() > 0)
            &&& forall|i: int, j: int|
                0 <= i < j < v.peer_routes.len() ==> (#[trigger] v.peer_routes[i]).peer != (#[trigger] v.peer_routes[j]).peer
            &&& forall|i: int|
                0 <= i < v.pending.len() ==> {
                    let m = #[trigger] v.pending[i];
                    &&& m.logical is Some ==> !c.codec.is_volatile(m.logical->0)
                    &&& m.expiry_ms > 0
                    &&& delivery_good(m.delivery, c)
                    &&& m.delivery.cells.len() > 0 || c.version == 16 || c.version >= 18
                    &&& 0 < m.sequence < v.head.next_direct_sequence
                }
            &&& forall|i: int, j: int|
                0 <= i < j < v.pending.len() ==> (#[trigger] v.pending[i]).message_id != (#[trigger] v.pending[j]).message_id
                    && v.pending[i].sequence != v.pending[j].sequence
            &&& forall|i: int| 0 <= i < v.acks.len() ==> delivery_good(#[trigger] v.acks[i], c) && v.acks[i].cells.len() > 0
            &&& forall|i: int|
                0 <= i < v.processed.len() ==> delivery_good((#[trigger] v.processed[i]).delivery, c) && v.processed[i].delivery.cells.len() > 0
            &&& forall|i: int, j: int|
                0 <= i < j < v.processed.len() ==> !((#[trigger] v.processed[i]).peer == (#[trigger] v.processed[j]).peer
                    && v.processed[i].counter == v.processed[j].counter)
        },
{
    reveal(core_good);
    lemma_keys(v, c);
    if core_good(v, c) {
        assert forall|i: int| 0 <= i < v.sessions.len() implies <SessionFrame as Entry>::good(#[trigger] v.sessions[i], c) by {}
        assert forall|i: int| 0 <= i < v.peer_routes.len() implies <PeerRouteFrame as Entry>::good(#[trigger] v.peer_routes[i], c) by {}
        assert forall|i: int| 0 <= i < v.pending.len() implies <PendingFrame as Entry>::good(#[trigger] v.pending[i], c) by {}
        assert forall|i: int| 0 <= i < v.acks.len() implies <DeliveryFrame as Entry>::good(#[trigger] v.acks[i], c) by {}
        assert forall|i: int| 0 <= i < v.processed.len() implies <ProcessedFrame as Entry>::good(#[trigger] v.processed[i], c) by {}
    }
}

proof fn lemma_keys(v: CoreView, c: Checks)
    ensures
        distinct(entry_keys::<SessionFrame>(v.sessions)) <==> forall|i: int, j: int|
            0 <= i < j < v.sessions.len() ==> (#[trigger] v.sessions[i]).peer != (#[trigger] v.sessions[j]).peer,
        distinct(entry_keys::<PeerRouteFrame>(v.peer_routes)) <==> forall|i: int, j: int|
            0 <= i < j < v.peer_routes.len() ==> (#[trigger] v.peer_routes[i]).peer != (#[trigger] v.peer_routes[j]).peer,
        distinct(entry_keys::<PendingFrame>(v.pending)) <==> forall|i: int, j: int|
            0 <= i < j < v.pending.len() ==> (#[trigger] v.pending[i]).message_id != (#[trigger] v.pending[j]).message_id,
        distinct(entry_keys::<ProcessedFrame>(v.processed)) <==> forall|i: int, j: int|
            0 <= i < j < v.processed.len() ==> !((#[trigger] v.processed[i]).peer == (#[trigger] v.processed[j]).peer
                && v.processed[i].counter == v.processed[j].counter),
{
    let a = entry_keys::<SessionFrame>(v.sessions);
    let b = entry_keys::<PeerRouteFrame>(v.peer_routes);
    let p = entry_keys::<PendingFrame>(v.pending);
    let q = entry_keys::<ProcessedFrame>(v.processed);
    if distinct(a) {
        assert forall|i: int, j: int| 0 <= i < j < v.sessions.len() implies (#[trigger] v.sessions[i]).peer != (#[trigger] v.sessions[j]).peer by {
            assert(a[i] != a[j]);
        }
    }
    if distinct(b) {
        assert forall|i: int, j: int| 0 <= i < j < v.peer_routes.len() implies (#[trigger] v.peer_routes[i]).peer != (
        #[trigger] v.peer_routes[j]).peer by {
            assert(b[i] != b[j]);
        }
    }
    if distinct(p) {
        assert forall|i: int, j: int| 0 <= i < j < v.pending.len() implies (#[trigger] v.pending[i]).message_id != (
        #[trigger] v.pending[j]).message_id by {
            assert(p[i] != p[j]);
        }
    }
    if distinct(q) {
        assert forall|i: int, j: int| 0 <= i < j < v.processed.len() implies !((#[trigger] v.processed[i]).peer == (
        #[trigger] v.processed[j]).peer && v.processed[i].counter == v.processed[j].counter) by {
            assert(q[i] != q[j]);
        }
    }
}

/// Whether a recipient is expected to answer.
pub open spec fn expects(expected: Seq<RecipientView>, id: [u8; 32]) -> bool {
    exists|j: int| 0 <= j < expected.len() && (#[trigger] expected[j]).identity == id
}

/// Whether recipients are in order: there are some, each at a route of its own
/// pseudonym and none twice, and some of them, but not all, have answered, none twice.
pub open spec fn recipients_in_order(v: ExpectedView, codec: Codec) -> bool {
    &&& v.expected.len() > 0
    &&& v.acknowledged.len() != v.expected.len()
    &&& forall|i: int|
        0 <= i < v.expected.len() ==> (codec.route((#[trigger] v.expected[i]).route) matches Some(route) && route.pseudonym
            == v.expected[i].identity)
    &&& forall|i: int, j: int| 0 <= i < j < v.expected.len() ==> (#[trigger] v.expected[i]).identity != (#[trigger] v.expected[j]).identity
    &&& forall|i: int| 0 <= i < v.acknowledged.len() ==> expects(v.expected, (#[trigger] v.acknowledged[i]).id)
    &&& forall|i: int, j: int| 0 <= i < j < v.acknowledged.len() ==> (#[trigger] v.acknowledged[i]).id != (#[trigger] v.acknowledged[j]).id
}

proof fn lemma_recipients(v: ExpectedView, c: Checks)
    requires
        recipients_good(v, c),
    ensures
        recipients_in_order(v, *c.codec),
{
    let a = entry_keys::<RecipientFrame>(v.expected);
    let b = entry_keys::<IdFrame>(v.acknowledged);
    assert(in_order::<RecipientFrame>(v.expected, c) && in_order::<IdFrame>(v.acknowledged, c));
    assert forall|i: int| 0 <= i < v.expected.len() implies (c.codec.route((#[trigger] v.expected[i]).route) matches Some(route)
        && route.pseudonym == v.expected[i].identity) by {
        assert(<RecipientFrame as Entry>::good(v.expected[i], c));
    }
    assert forall|i: int, j: int| 0 <= i < j < v.expected.len() implies (#[trigger] v.expected[i]).identity != (
    #[trigger] v.expected[j]).identity by {
        assert(a[i] != a[j]);
    }
    assert forall|i: int, j: int| 0 <= i < j < v.acknowledged.len() implies (#[trigger] v.acknowledged[i]).id != (
    #[trigger] v.acknowledged[j]).id by {
        assert(b[i] != b[j]);
    }
    assert forall|i: int| 0 <= i < v.acknowledged.len() implies expects(v.expected, (#[trigger] v.acknowledged[i]).id) by {
        assert(a.contains(v.acknowledged[i].id));
        let j = a.index_of(v.acknowledged[i].id);
        assert(v.expected[j].identity == v.acknowledged[i].id);
    }
}

/// Recipients are taken exactly where they are in order.
pub proof fn recipients_are_taken_in_order(v: ExpectedView, c: Checks)
    ensures
        recipients_good(v, c) <==> recipients_in_order(v, *c.codec),
{
    if recipients_good(v, c) {
        lemma_recipients(v, c);
    }
    if recipients_in_order(v, *c.codec) {
        let a = entry_keys::<RecipientFrame>(v.expected);
        let b = entry_keys::<IdFrame>(v.acknowledged);
        assert forall|i: int| 0 <= i < v.acknowledged.len() implies a.contains((#[trigger] v.acknowledged[i]).id) by {
            let j = choose|j: int| 0 <= j < v.expected.len() && (#[trigger] v.expected[j]).identity == v.acknowledged[i].id;
            assert(a[j] == v.acknowledged[i].id);
        }
        assert forall|i: int| 0 <= i < v.expected.len() implies <RecipientFrame as Entry>::good(#[trigger] v.expected[i], c) by {}
        assert forall|i: int, j: int| 0 <= i < j < a.len() implies a[i] != a[j] by {
            assert(v.expected[i].identity != v.expected[j].identity);
        }
        assert forall|i: int, j: int| 0 <= i < j < b.len() implies b[i] != b[j] by {
            assert(v.acknowledged[i].id != v.acknowledged[j].id);
        }
        assert(ids_expected(v.acknowledged, v.expected));
        assert(recipients_good(v, c));
    }
}

/// The journals of a channel are in order exactly where the node's own name, if it has
/// one, is its name in the role; every member has a name, a route of another's and no
/// namesake; every message that waits is the one that its identifier says and has
/// recipients in order, none twice; and so has the commit that waits.
#[verifier::rlimit(40)]
pub proof fn channel_outboxes_in_order(v: ChannelBodyView, k: ChannelFacts)
    requires
        body_good(v, k),
    ensures
        v.outbox.own_name matches Some(name) ==> encode_utf8(name).len() > 0 && k.role.named(name) == Some(k.role.pseudonym),
        forall|i: int|
            0 <= i < v.outbox.directory.len() ==> encode_utf8((#[trigger] v.outbox.directory[i]).member).len() > 0 && (k.c.codec.route(
                v.outbox.directory[i].route,
            ) matches Some(route) && route.pseudonym != k.role.pseudonym),
        forall|i: int, j: int|
            0 <= i < j < v.outbox.directory.len() ==> (#[trigger] v.outbox.directory[i]).member != (#[trigger] v.outbox.directory[j]).member,
        forall|i: int|
            0 <= i < v.outbox.messages.len() ==> k.c.codec.message_id(k.name, (#[trigger] v.outbox.messages[i]).wire) == Some(
                v.outbox.messages[i].message_id,
            ) && recipients_in_order(v.outbox.messages[i].recipients, *k.c.codec),
        forall|i: int, j: int|
            0 <= i < j < v.outbox.messages.len() ==> (#[trigger] v.outbox.messages[i]).message_id != (#[trigger] v.outbox.messages[j]).message_id,
        v.outbox.membership matches Some(m) ==> k.c.codec.message_id(k.name, m.commit) == Some(m.commit_id) && recipients_in_order(
            m.recipients,
            *k.c.codec,
        ),
{
    reveal(body_good);
    assert forall|i: int| 0 <= i < v.outbox.messages.len() implies k.c.codec.message_id(k.name, (#[trigger] v.outbox.messages[i]).wire) == Some(
        v.outbox.messages[i].message_id,
    ) && recipients_in_order(v.outbox.messages[i].recipients, *k.c.codec) by {
        assert(crate::archive_check::message_good(v.outbox.messages[i], k));
        lemma_recipients(v.outbox.messages[i].recipients, k.c);
    }
    if v.outbox.membership is Some {
        lemma_recipients(v.outbox.membership->0.recipients, k.c);
    }
}

/// The ledger of a channel in order: every piece of control traffic has a route; every
/// admission a name, a welcome and a request of its own; every removal a key of its
/// own; every acknowledgement of a commit a route, a text and a message of its own;
/// every one without a route is for another member, has a text, and is the only one
/// for its message; and no invite is there twice.
#[verifier::rlimit(40)]
pub proof fn channel_ledgers_in_order(v: ChannelBodyView, k: ChannelFacts)
    requires
        body_good(v, k),
    ensures
        forall|i: int| 0 <= i < v.ledger.control.len() ==> k.c.codec.route((#[trigger] v.ledger.control[i]).route) is Some,
        forall|i: int|
            0 <= i < v.ledger.admissions.len() ==> encode_utf8((#[trigger] v.ledger.admissions[i]).name).len() > 0
                && v.ledger.admissions[i].welcome.len() > 0,
        forall|i: int, j: int|
            0 <= i < j < v.ledger.admissions.len() ==> (#[trigger] v.ledger.admissions[i]).request_id != (#[trigger] v.ledger.admissions[j]).request_id,
        forall|i: int| 0 <= i < v.ledger.removals.len() ==> removal_key((#[trigger] v.ledger.removals[i]).name, k.c) is Some,
        forall|i: int, j: int|
            0 <= i < j < v.ledger.removals.len() ==> removal_key((#[trigger] v.ledger.removals[i]).name, k.c) != removal_key(
                (#[trigger] v.ledger.removals[j]).name,
                k.c,
            ),
        forall|i: int|
            0 <= i < v.ledger.commit_acks.len() ==> k.c.codec.route((#[trigger] v.ledger.commit_acks[i]).route) is Some
                && v.ledger.commit_acks[i].wire.len() > 0,
        forall|i: int, j: int|
            0 <= i < j < v.ledger.commit_acks.len() ==> (#[trigger] v.ledger.commit_acks[i]).message_id != (
            #[trigger] v.ledger.commit_acks[j]).message_id,
        forall|i: int|
            0 <= i < v.ledger.unrouted.len() ==> (#[trigger] v.ledger.unrouted[i]).sender != k.role.pseudonym && k.role.enrolls(
                v.ledger.unrouted[i].sender,
            ) && v.ledger.unrouted[i].wire.len() > 0,
        forall|i: int, j: int|
            0 <= i < j < v.ledger.unrouted.len() ==> !((#[trigger] v.ledger.unrouted[i]).original_id == (
            #[trigger] v.ledger.unrouted[j]).original_id && v.ledger.unrouted[i].sender == v.ledger.unrouted[j].sender),
        forall|i: int, j: int|
            0 <= i < j < v.ledger.invites.len() ==> (#[trigger] v.ledger.invites[i]).invite_id != (#[trigger] v.ledger.invites[j]).invite_id,
{
    reveal(body_good);
    let a = entry_keys::<AdmissionFrame>(v.ledger.admissions);
    let b = entry_keys::<CommitAckFrame>(v.ledger.commit_acks);
    let e = entry_keys::<InviteFrame>(v.ledger.invites);
    assert forall|i: int| 0 <= i < v.ledger.control.len() implies k.c.codec.route((#[trigger] v.ledger.control[i]).route) is Some by {
        assert(<ControlFrame as Entry>::good(v.ledger.control[i], k.c));
    }
    assert forall|i: int| 0 <= i < v.ledger.admissions.len() implies encode_utf8((#[trigger] v.ledger.admissions[i]).name).len() > 0
        && v.ledger.admissions[i].welcome.len() > 0 by {
        assert(<AdmissionFrame as Entry>::good(v.ledger.admissions[i], k.c));
    }
    assert forall|i: int, j: int| 0 <= i < j < v.ledger.admissions.len() implies (#[trigger] v.ledger.admissions[i]).request_id != (
    #[trigger] v.ledger.admissions[j]).request_id by {
        assert(a[i] != a[j]);
    }
    assert forall|i: int| 0 <= i < v.ledger.commit_acks.len() implies k.c.codec.route((#[trigger] v.ledger.commit_acks[i]).route) is Some
        && v.ledger.commit_acks[i].wire.len() > 0 by {
        assert(<CommitAckFrame as Entry>::good(v.ledger.commit_acks[i], k.c));
    }
    assert forall|i: int, j: int| 0 <= i < j < v.ledger.commit_acks.len() implies (#[trigger] v.ledger.commit_acks[i]).message_id != (
    #[trigger] v.ledger.commit_acks[j]).message_id by {
        assert(b[i] != b[j]);
    }
    assert forall|i: int, j: int| 0 <= i < j < v.ledger.invites.len() implies (#[trigger] v.ledger.invites[i]).invite_id != (
    #[trigger] v.ledger.invites[j]).invite_id by {
        assert(e[i] != e[j]);
    }
}

/// The key of a completed removal: from the eighth version on what is stored, where it
/// is such a key, and before that the key that the member's name is known by. Nothing
/// stored is no key.
pub proof fn removals_are_known_by_their_key(stored: Seq<char>, c: Checks)
    ensures
        encode_utf8(stored).len() == 0 ==> removal_key(stored, c) is None,
        encode_utf8(stored).len() > 0 && c.version >= 8 && crate::model::views(c.codec.removal_keys@).contains(stored) ==> removal_key(stored, c)
            == Some(stored),
        encode_utf8(stored).len() > 0 && c.version >= 8 && !crate::model::views(c.codec.removal_keys@).contains(stored) ==> removal_key(
            stored,
            c,
        ) is None,
        encode_utf8(stored).len() > 0 && c.version < 8 ==> match c.codec.legacy_removal_keys.lookup(stored) {
            Some(key) => removal_key(stored, c) == Some(key@),
            None => removal_key(stored, c) is None,
        },
{
}

/// The policy is in order exactly where every peer opted in for is named, none twice,
/// and every channel opted in for is one of the archive, none twice.
pub proof fn policies_in_order(v: PolicyView, channels: Seq<Seq<char>>, c: Checks)
    ensures
        policy_good(v, channels, c) <==> {
            &&& forall|i: int| 0 <= i < v.peers.len() ==> (#[trigger] v.peers[i]).peer.len() > 0
            &&& forall|i: int, j: int| 0 <= i < j < v.peers.len() ==> (#[trigger] v.peers[i]).peer != (#[trigger] v.peers[j]).peer
            &&& forall|i: int| 0 <= i < v.channels.len() ==> channels.contains((#[trigger] v.channels[i]).name)
            &&& forall|i: int, j: int| 0 <= i < j < v.channels.len() ==> (#[trigger] v.channels[i]).name != (#[trigger] v.channels[j]).name
        },
{
    reveal(policy_good);
    let a = entry_keys::<PeerFrame>(v.peers);
    let b = entry_keys::<NameFrame>(v.channels);
    if policy_good(v, channels, c) {
        assert forall|i: int| 0 <= i < v.peers.len() implies (#[trigger] v.peers[i]).peer.len() > 0 by {
            assert(<PeerFrame as Entry>::good(v.peers[i], c));
        }
        assert forall|i: int, j: int| 0 <= i < j < v.peers.len() implies (#[trigger] v.peers[i]).peer != (#[trigger] v.peers[j]).peer by {
            assert(a[i] != a[j]);
        }
        assert forall|i: int, j: int| 0 <= i < j < v.channels.len() implies (#[trigger] v.channels[i]).name != (#[trigger] v.channels[j]).name by {
            assert(b[i] != b[j]);
        }
    }
}

} // verus!
