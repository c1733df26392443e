//! When the state of a node can be kept, and as what.

use vstd::prelude::*;
use crate::archive_item::{expected_refusal, first_refusal, ChannelWriting, Stored};
use crate::archive_write::{body_refusal, core_refusal, credited, magic, own_name, written_version, Writer};
use crate::channel_route::route_wire;
use crate::codec::{Codec, Protocol};
use crate::model::{views, ChannelRoute};
use crate::node_state::{ChannelState, DirectDelivery, NodeState, Snapshot};
use crate::table::Table;

verus! {

/// Whether an item can be kept, or need not be.
spec fn no_obstacle<W: Copy, S: Stored<W>>(s: Seq<S>, i: int, w: W) -> bool {
    s[i].kept(w) ==> s[i].refusal(w) is None
}

proof fn lemma_refusals<W: Copy, S: Stored<W>>(s: Seq<S>, n: nat, w: W)
    requires
        n <= s.len(),
    ensures
        first_refusal(s, n, w) is None <==> forall|i: int| 0 <= i < n ==> #[trigger] no_obstacle(s, i, w),
    decreases n,
{
    if n > 0 {
        lemma_refusals(s, (n - 1) as nat, w);
        if first_refusal(s, n, w) is None {
            assert forall|i: int| 0 <= i < n implies #[trigger] no_obstacle(s, i, w) by {
                if i < n - 1 {
                    assert(no_obstacle(s, i, w));
                }
            }
        }
        if forall|i: int| 0 <= i < n ==> #[trigger] no_obstacle(s, i, w) {
            assert(no_obstacle(s, n - 1, w));
            assert(first_refusal(s, (n - 1) as nat, w) is None);
        }
    }
}

/// Whether a delivery can be kept: the peer's card has an encoding and every cell can
/// be carried.
pub open spec fn delivery_can_be_kept(d: DirectDelivery, codec: Codec) -> bool {
    &&& codec.card_wire(d.peer@) is Some
    &&& forall|k: int| 0 <= k < d.cells@.len() ==> codec.carries((#[trigger] d.cells@[k])@)
}

proof fn lemma_delivery(d: DirectDelivery, codec: Codec)
    ensures
        crate::archive_item::delivery_refusal(d, codec) is None <==> delivery_can_be_kept(d, codec),
{
    let v = views(d.cells@);
    if crate::archive_check::cells_carried(v, codec) {
        assert forall|k: int| 0 <= k < d.cells@.len() implies codec.carries((#[trigger] d.cells@[k])@) by {
            assert(codec.carries(v[k]));
        }
    }
    if forall|k: int| 0 <= k < d.cells@.len() ==> codec.carries((#[trigger] d.cells@[k])@) {
        assert forall|k: int| 0 <= k < v.len() implies codec.carries(#[trigger] v[k]) by {
            assert(codec.carries(d.cells@[k]@));
        }
    }
}

/// The direct traffic of a node can be kept exactly where every card is stored under
/// the peer that it names and has an encoding; every message that waits, unless its
/// record is volatile, and every acknowledgement can be kept; and every taken frame in
/// the order is there and can be kept.
pub proof fn direct_traffic_can_be_kept(st: &NodeState, w: Writer)
    ensures
        core_refusal(st, w) is None <==> {
            &&& forall|i: int|
                0 <= i < st.peer_routes.entries@.len() ==> (#[trigger] st.peer_routes.entries@[i]).0@ == st.peer_routes.entries@[i].1.identity_pk@
                    && w.codec.card_wire(st.peer_routes.entries@[i].1@) is Some
            &&& forall|i: int|
                0 <= i < st.pending_1to1.entries@.len() ==> {
                    let m = (#[trigger] st.pending_1to1.entries@[i]).1;
                    ||| m.logical_record is Some && w.codec.is_volatile(m.logical_record->0@)
                    ||| delivery_can_be_kept(m.delivery, *w.codec)
                }
            &&& forall|i: int|
                0 <= i < st.direct_ack_outbox@.len() ==> delivery_can_be_kept(#[trigger] st.direct_ack_outbox@[i], *w.codec)
            &&& forall|i: int|
                0 <= i < st.processed_direct_order@.len() ==> {
                    let frame = st.processed_direct.lookup((#[trigger] st.processed_direct_order@[i])@);
                    frame is Some && delivery_can_be_kept(frame->0.delivery, *w.codec)
                }
        },
{
    let e = crate::archive_write::writing(st, w);
    let a = st.sessions.entries@;
    let b = st.peer_routes.entries@;
    let c = st.pending_1to1.entries@;
    let d = st.direct_ack_outbox@;
    let f = st.processed_direct_order@;
    lemma_refusals(a, a.len(), e);
    lemma_refusals(b, b.len(), e);
    lemma_refusals(c, c.len(), e);
    lemma_refusals(d, d.len(), e);
    lemma_refusals(f, f.len(), e);
    assert forall|i: int| 0 <= i < a.len() implies #[trigger] no_obstacle(a, i, e) by {}
    assert forall|i: int| 0 <= i < c.len() implies (no_obstacle(c, i, e) <==> {
        let m = (#[trigger] c[i]).1;
        ||| m.logical_record is Some && w.codec.is_volatile(m.logical_record->0@)
        ||| delivery_can_be_kept(m.delivery, *w.codec)
    }) by {
        lemma_delivery(c[i].1.delivery, *w.codec);
    }
    assert forall|i: int| 0 <= i < d.len() implies (no_obstacle(d, i, e) <==> delivery_can_be_kept(#[trigger] d[i], *w.codec)) by {
        lemma_delivery(d[i], *w.codec);
    }
    assert forall|i: int| 0 <= i < f.len() implies (no_obstacle(f, i, e) <==> {
        let frame = st.processed_direct.lookup((#[trigger] f[i])@);
        frame is Some && delivery_can_be_kept(frame->0.delivery, *w.codec)
    }) by {
        let frame = st.processed_direct.lookup(f[i]@);
        if frame is Some {
            lemma_delivery(frame->0.delivery, *w.codec);
        }
    }
    if core_refusal(st, w) is None {
        assert forall|i: int| 0 <= i < b.len() implies (#[trigger] b[i]).0@ == b[i].1.identity_pk@ && w.codec.card_wire(b[i].1@) is Some by {
            assert(no_obstacle(b, i, e));
        }
        assert forall|i: int| 0 <= i < c.len() implies {
            let m = (#[trigger] c[i]).1;
            ||| m.logical_record is Some && w.codec.is_volatile(m.logical_record->0@)
            ||| delivery_can_be_kept(m.delivery, *w.codec)
        } by {
            assert(no_obstacle(c, i, e));
        }
        assert forall|i: int| 0 <= i < d.len() implies delivery_can_be_kept(#[trigger] d[i], *w.codec) by {
            assert(no_obstacle(d, i, e));
        }
        assert forall|i: int| 0 <= i < f.len() implies {
            let frame = st.processed_direct.lookup((#[trigger] f[i])@);
            frame is Some && delivery_can_be_kept(frame->0.delivery, *w.codec)
        } by {
            assert(no_obstacle(f, i, e));
        }
    } else {
        if forall|i: int| 0 <= i < b.len() ==> (#[trigger] b[i]).0@ == b[i].1.identity_pk@ && w.codec.card_wire(b[i].1@) is Some {
            assert forall|i: int| 0 <= i < b.len() implies #[trigger] no_obstacle(b, i, e) by {
                assert(b[i].0@ == b[i].1.identity_pk@);
            }
        }
        if forall|i: int| 0 <= i < c.len() ==> {
            let m = (#[trigger] c[i]).1;
            ||| m.logical_record is Some && w.codec.is_volatile(m.logical_record->0@)
            ||| delivery_can_be_kept(m.delivery, *w.codec)
        } {
            assert forall|i: int| 0 <= i < c.len() implies #[trigger] no_obstacle(c, i, e) by {
                let m = c[i].1;
            }
        }
        if forall|i: int| 0 <= i < d.len() ==> delivery_can_be_kept(#[trigger] d[i], *w.codec) {
            assert forall|i: int| 0 <= i < d.len() implies #[trigger] no_obstacle(d, i, e) by {
                assert(delivery_can_be_kept(d[i], *w.codec));
            }
        }
        if forall|i: int| 0 <= i < f.len() ==> {
            let frame = st.processed_direct.lookup((#[trigger] f[i])@);
            frame is Some && delivery_can_be_kept(frame->0.delivery, *w.codec)
        } {
            assert forall|i: int| 0 <= i < f.len() implies #[trigger] no_obstacle(f, i, e) by {
                let key = f[i];
            }
        }
    }
}

/// Whether recipients can be kept: everyone who answered is expected, and everyone
/// expected is stored under the pseudonym of a route that has an encoding.
pub open spec fn recipients_can_be_kept(acknowledged: Seq<[u8; 32]>, expected: Table<[u8; 32], ChannelRoute>, codec: Codec) -> bool {
    &&& forall|i: int| 0 <= i < acknowledged.len() ==> expected.has((#[trigger] acknowledged[i])@)
    &&& forall|i: int|
        0 <= i < expected.entries@.len() ==> (#[trigger] expected.entries@[i]).0 == expected.entries@[i].1.pseudonym && route_wire(
            codec,
            expected.entries@[i].1,
        ) is Some
}

proof fn lemma_recipients_kept(acknowledged: Seq<[u8; 32]>, expected: Table<[u8; 32], ChannelRoute>, codec: &Codec)
    ensures
        expected_refusal(acknowledged, expected, codec) is None <==> recipients_can_be_kept(acknowledged, expected, *codec),
{
    let s = expected.entries@;
    lemma_refusals(s, s.len(), codec);
    if expected_refusal(acknowledged, expected, codec) is None {
        assert forall|i: int| 0 <= i < s.len() implies (#[trigger] s[i]).0 == s[i].1.pseudonym && route_wire(*codec, s[i].1) is Some by {
            assert(no_obstacle(s, i, codec));
        }
    }
    if recipients_can_be_kept(acknowledged, expected, *codec) {
        assert forall|i: int| 0 <= i < s.len() implies #[trigger] no_obstacle(s, i, codec) by {
            let x = s[i];
        }
    }
}

/// Whether the journals of a channel can be kept: every other member's route has
/// an encoding; every message that waits, and the commit that waits, is the one that
/// its identifier says, with recipients that can be kept; control traffic has routes
/// with an encoding; each order lists exactly as many items as its table holds, all of
/// them there; completed removals are keys; acknowledgements of commits have routes
/// with an encoding; and acknowledgements without a route are for other members, not
/// empty, and within their limit.
pub open spec fn journals_can_be_kept(c: &ChannelState, w: ChannelWriting, p: Protocol) -> bool {
    &&& forall|i: int|
        0 <= i < c.directory.entries@.len() ==> (#[trigger] c.directory.entries@[i]).1.pseudonym == w.role.pseudonym || route_wire(
            *w.codec,
            c.directory.entries@[i].1,
        ) is Some
    &&& forall|i: int|
        0 <= i < c.message_outbox.entries@.len() ==> w.codec.message_id(
            w.name@,
            (#[trigger] c.message_outbox.entries@[i]).1.wire@,
        ) == Some(c.message_outbox.entries@[i].0) && recipients_can_be_kept(
            c.message_outbox.entries@[i].1.acknowledged@,
            c.message_outbox.entries@[i].1.expected,
            *w.codec,
        )
    &&& c.membership_outbox matches Some(m) ==> w.codec.message_id(w.name@, m.commit@) == Some(m.commit_id) && recipients_can_be_kept(
        m.acknowledged@,
        m.expected,
        *w.codec,
    )
    &&& forall|i: int| 0 <= i < c.pending_control@.len() ==> route_wire(*w.codec, (#[trigger] c.pending_control@[i]).route) is Some
    &&& c.admission_cache.entries@.len() == c.admission_cache_order@.len()
    &&& forall|i: int| 0 <= i < c.admission_cache_order@.len() ==> c.admission_cache.has((#[trigger] c.admission_cache_order@[i])@)
    &&& forall|i: int|
        0 <= i < c.completed_removals@.len() ==> views(w.codec.removal_keys@).contains((#[trigger] c.completed_removals@[i])@)
    &&& c.commit_ack_cache.entries@.len() == c.commit_ack_order@.len()
    &&& forall|i: int|
        0 <= i < c.commit_ack_order@.len() ==> (c.commit_ack_cache.lookup((#[trigger] c.commit_ack_order@[i])@) matches Some(ack)
            && route_wire(*w.codec, ack.route) is Some)
    &&& c.unrouted_ack_journal.entries@.len() == c.unrouted_ack_order@.len()
    &&& c.unrouted_ack_order@.len() <= p.channel_ack_limit
    &&& forall|i: int|
        0 <= i < c.unrouted_ack_order@.len() ==> {
            let key = #[trigger] c.unrouted_ack_order@[i];
            &&& c.unrouted_ack_journal.lookup(key@) matches Some(wire) && wire@.len() > 0
            &&& key.sender_pseudonym != w.role.pseudonym
            &&& w.role.enrolls(key.sender_pseudonym)
        }
    &&& c.invites.entries@.len() == c.invite_order@.len()
    &&& forall|i: int| 0 <= i < c.invite_order@.len() ==> c.invites.has((#[trigger] c.invite_order@[i])@)
}

/// The journals of a channel are refused exactly where they cannot be kept.
#[verifier::rlimit(60)]
pub proof fn channel_journals_can_be_kept(c: &ChannelState, w: ChannelWriting, p: Protocol)
    requires
        *w.channel == *c,
    ensures
        body_refusal(c, w, p) is None <==> journals_can_be_kept(c, w, p),
{
    let s1 = c.directory.entries@;
    let s2 = c.message_outbox.entries@;
    let s3 = c.pending_control@;
    let s4 = c.admission_cache_order@;
    let s5 = c.completed_removals@;
    let s6 = c.commit_ack_order@;
    let s7 = c.unrouted_ack_order@;
    let s8 = c.invite_order@;
    lemma_refusals(s1, s1.len(), w);
    lemma_refusals(s2, s2.len(), w);
    lemma_refusals(s3, s3.len(), w);
    lemma_refusals::<ChannelWriting, [u8; 32]>(s4, s4.len(), w);
    lemma_refusals(s5, s5.len(), w);
    lemma_refusals::<ChannelWriting, [u8; 16]>(s6, s6.len(), w);
    lemma_refusals(s7, s7.len(), w);
    lemma_refusals(s8, s8.len(), &c.invites);
    if body_refusal(c, w, p) is None {
        assert forall|i: int| 0 <= i < s1.len() implies (#[trigger] s1[i]).1.pseudonym == w.role.pseudonym || route_wire(*w.codec, s1[i].1) is Some by {
            assert(no_obstacle(s1, i, w));
        }
        assert forall|i: int| 0 <= i < s2.len() implies w.codec.message_id(w.name@, (#[trigger] s2[i]).1.wire@) == Some(s2[i].0)
            && recipients_can_be_kept(s2[i].1.acknowledged@, s2[i].1.expected, *w.codec) by {
            assert(no_obstacle(s2, i, w));
            lemma_recipients_kept(s2[i].1.acknowledged@, s2[i].1.expected, w.codec);
        }
        if c.membership_outbox is Some {
            lemma_recipients_kept(c.membership_outbox->0.acknowledged@, c.membership_outbox->0.expected, w.codec);
        }
        assert forall|i: int| 0 <= i < s3.len() implies route_wire(*w.codec, (#[trigger] s3[i]).route) is Some by {
            assert(no_obstacle(s3, i, w));
        }
        assert forall|i: int| 0 <= i < s4.len() implies c.admission_cache.has((#[trigger] s4[i])@) by {
            assert(no_obstacle::<ChannelWriting, [u8; 32]>(s4, i, w));
        }
        assert forall|i: int| 0 <= i < s5.len() implies views(w.codec.removal_keys@).contains((#[trigger] s5[i])@) by {
            assert(no_obstacle(s5, i, w));
        }
        assert forall|i: int| 0 <= i < s6.len() implies (c.commit_ack_cache.lookup((#[trigger] s6[i])@) matches Some(ack) && route_wire(
            *w.codec,
            ack.route,
        ) is Some) by {
            assert(no_obstacle::<ChannelWriting, [u8; 16]>(s6, i, w));
        }
        assert forall|i: int| 0 <= i < s7.len() implies {
            let key = #[trigger] s7[i];
            &&& c.unrouted_ack_journal.lookup(key@) matches Some(wire) && wire@.len() > 0
            &&& key.sender_pseudonym != w.role.pseudonym
            &&& w.role.enrolls(key.sender_pseudonym)
        } by {
            assert(no_obstacle(s7, i, w));
        }
        assert forall|i: int| 0 <= i < s8.len() implies c.invites.has((#[trigger] s8[i])@) by {
            assert(no_obstacle(s8, i, &c.invites));
        }
    }
    if journals_can_be_kept(c, w, p) {
        assert forall|i: int| 0 <= i < s1.len() implies #[trigger] no_obstacle(s1, i, w) by {
            let x = s1[i];
        }
        assert forall|i: int| 0 <= i < s2.len() implies #[trigger] no_obstacle(s2, i, w) by {
            lemma_recipients_kept(s2[i].1.acknowledged@, s2[i].1.expected, w.codec);
        }
        if c.membership_outbox is Some {
            lemma_recipients_kept(c.membership_outbox->0.acknowledged@, c.membership_outbox->0.expected, w.codec);
        }
        assert forall|i: int| 0 <= i < s3.len() implies #[trigger] no_obstacle(s3, i, w) by {
            let x = s3[i];
        }
        assert forall|i: int| 0 <= i < s4.len() implies #[trigger] no_obstacle::<ChannelWriting, [u8; 32]>(s4, i, w) by {
            let x = s4[i];
        }
        assert forall|i: int| 0 <= i < s5.len() implies #[trigger] no_obstacle(s5, i, w) by {
            let x = s5[i];
        }
        assert forall|i: int| 0 <= i < s6.len() implies #[trigger] no_obstacle::<ChannelWriting, [u8; 16]>(s6, i, w) by {
            let x = s6[i];
        }
        assert forall|i: int| 0 <= i < s7.len() implies #[trigger] no_obstacle(s7, i, w) by {
            let x = s7[i];
        }
        assert forall|i: int| 0 <= i < s8.len() implies #[trigger] no_obstacle(s8, i, &c.invites) by {
            let x = s8[i];
        }
        assert(body_refusal(c, w, p) is None);
    }
}

/// An archive is of the twenty-first version where the node was started for credited
/// sessions or has one, or the session that takes another's place is one; else it is of
/// the nineteenth. It begins with a letter each for the two.
pub proof fn archives_are_of_two_versions(st: NodeState, replaced: Option<(&Vec<u8>, &Snapshot)>)
    ensures
        written_version(st, replaced) == 21 || written_version(st, replaced) == 19,
        written_version(st, replaced) == 21 <==> {
            ||| st.gc2_sessions
            ||| exists|i: int| 0 <= i < st.sessions.entries@.len() && (#[trigger] st.sessions.entries@[i]).1.tag is Some
            ||| (replaced matches Some((_, snapshot)) && snapshot.tag is Some)
        },
        magic(21) == seq![0x47u8, 0x43u8, 0x4eu8, 0x53u8, 0x54u8, 0x4cu8],
        magic(19) == seq![0x47u8, 0x43u8, 0x4eu8, 0x53u8, 0x54u8, 0x4au8],
{
    assert(credited(st, replaced) <==> written_version(st, replaced) == 21);
}

proof fn lemma_own_name(entries: Seq<(String, ChannelRoute)>, n: nat, pseudonym: [u8; 32])
    requires
        n <= entries.len(),
    ensures
        match own_name(entries, n, pseudonym) {
            Some(name) => exists|i: int|
                0 <= i < n && (#[trigger] entries[i]).0@ == name && entries[i].1.pseudonym == pseudonym && forall|j: int|
                    0 <= j < i ==> (#[trigger] entries[j]).1.pseudonym != pseudonym,
            None => forall|j: int| 0 <= j < n ==> (#[trigger] entries[j]).1.pseudonym != pseudonym,
        },
    decreases n,
{
    if n > 0 {
        lemma_own_name(entries, (n - 1) as nat, pseudonym);
        if own_name(entries, (n - 1) as nat, pseudonym) is None && entries[n - 1].1.pseudonym == pseudonym {
            assert(entries[n - 1].0@ == own_name(entries, n, pseudonym)->0);
        }
    }
}

/// The node's own name in a channel is that of the first member of the directory who
/// goes by its pseudonym; without such a member it has none.
pub proof fn the_own_name_goes_by_the_pseudonym(entries: Seq<(String, ChannelRoute)>, pseudonym: [u8; 32], i: int)
    requires
        0 <= i < entries.len(),
    ensures
        entries[i].1.pseudonym == pseudonym && (forall|j: int| 0 <= j < i ==> (#[trigger] entries[j]).1.pseudonym != pseudonym) ==> own_name(
            entries,
            entries.len(),
            pseudonym,
        ) == Some(entries[i].0@),
        (forall|j: int| 0 <= j < entries.len() ==> (#[trigger] entries[j]).1.pseudonym != pseudonym) ==> own_name(
            entries,
            entries.len(),
            pseudonym,
        ) is None,
{
    lemma_own_name(entries, entries.len(), pseudonym);
    if entries[i].1.pseudonym == pseudonym && (forall|j: int| 0 <= j < i ==> (#[trigger] entries[j]).1.pseudonym != pseudonym) {
        let name = own_name(entries, entries.len(), pseudonym)->0;
        let k = choose|k: int|
            0 <= k < entries.len() && (#[trigger] entries[k]).0@ == name && entries[k].1.pseudonym == pseudonym && forall|j: int|
                0 <= j < k ==> (#[trigger] entries[j]).1.pseudonym != pseudonym;
        assert(k == i);
    }
}

} // verus!
