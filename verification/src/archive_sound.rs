//! What is read of an archive is in order.

use vstd::prelude::*;
use crate::archive::{central_stage, channel_at, channel_names, channels_at, core_only, count_at, decoded, field_at, inbox_stage, inline_routes, join_at, join_ids, joins_at, layout_of, magic_version, number_at, policy_stage, prepared_stage, tls_stage, trailer_at, trailer_stage, with_trailer, ArchiveView, Reader};
use crate::archive_check::{all_current, body_good, core_good, numbered, reconciling_keeps_order, ChannelFacts, Checks};
use crate::archive_frame::{ArchivedChannelView, ChannelBody, ChannelHead, CoreFrame, PolicyFrame};
use crate::codec::Codec;
use crate::record::reads;
use crate::table::distinct;
use crate::sealed_parts::{opened_central, opened_inbox, opened_tls};

verus! {

/// Whether a channel has a role that can be restored, journals in order for it, and
/// a directory that names no one but its members.
pub open spec fn channel_sound(a: ArchivedChannelView, c: Checks) -> bool {
    match c.codec.role(a.head.owner, a.head.name, a.head.blob) {
        Some(role) => {
            let k = ChannelFacts { c, name: a.head.name, role };
            body_good(a.body, k) && all_current(a.body.outbox.directory, k)
        },
        None => false,
    }
}

/// Whether everything in an archive is in order.
pub open spec fn sound(a: ArchiveView, codec: &Codec) -> bool {
    let c = Checks { version: a.version, codec };
    &&& core_good(a.core, c)
    &&& distinct(channel_names(a.channels))
    &&& distinct(join_ids(a.prepared))
    &&& forall|i: int| 0 <= i < a.channels.len() ==> channel_sound(#[trigger] a.channels[i], c)
}

proof fn lemma_channels_sound(buf: Seq<u8>, at: int, n: nat, version: u8, d: Reader)
    requires
        channels_at(buf, at, n, version, d) is Ok,
    ensures
        forall|i: int|
            0 <= i < channels_at(buf, at, n, version, d)->Ok_0.0.len() ==> channel_sound(
                #[trigger] channels_at(buf, at, n, version, d)->Ok_0.0[i],
                Checks { version, codec: d.codec },
            ),
        distinct(channel_names(channels_at(buf, at, n, version, d)->Ok_0.0)),
    decreases n,
{
    if n > 0 {
        lemma_channels_sound(buf, at, (n - 1) as nat, version, d);
        reveal(channel_at);
        let (before, _, q) = channels_at(buf, at, (n - 1) as nat, version, d)->Ok_0;
        let (channel, _, _) = channel_at(buf, q, before, version, d)->Ok_0;
        let (head, q1) = reads::<ChannelHead>(layout_of(version, *d.p), buf, q)->0;
        let role = d.codec.role(head.owner, head.name, head.blob)->0;
        let (_, q2) = inline_routes(buf, q1, head, role, version, d)->Ok_0;
        let (body, _) = reads::<ChannelBody>(layout_of(version, *d.p), buf, q2)->0;
        reconciling_keeps_order(body, ChannelFacts { c: Checks { version, codec: d.codec }, name: head.name, role });
        let ks = channel_names(before);
        let now = channel_names(before.push(channel));
        assert(now =~= ks.push(channel.head.name));
        assert forall|i: int, j: int| 0 <= i < j < now.len() implies now[i] != now[j] by {
            if j < ks.len() {
                assert(ks[i] != ks[j]);
            } else {
                assert(ks.contains(ks[i]));
            }
        }
    }
}

proof fn lemma_joins_sound(buf: Seq<u8>, at: int, n: nat, next: u64, version: u8, d: Reader)
    requires
        joins_at(buf, at, n, next, version, d) is Ok,
    ensures
        distinct(join_ids(joins_at(buf, at, n, next, version, d)->Ok_0.0)),
    decreases n,
{
    if n > 0 {
        lemma_joins_sound(buf, at, (n - 1) as nat, next, version, d);
        reveal(join_at);
        let (before, q) = joins_at(buf, at, (n - 1) as nat, next, version, d)->Ok_0;
        let (join, _) = join_at(buf, q, before, next, version, d)->Ok_0;
        let ks = join_ids(before);
        let now = join_ids(before.push(join));
        assert(now =~= ks.push(join.id));
        assert forall|i: int, j: int| 0 <= i < j < now.len() implies now[i] != now[j] by {
            if j < ks.len() {
                assert(ks[i] != ks[j]);
            } else {
                assert(ks.contains(ks[i]));
            }
        }
    }
}

/// Whether two readings agree on the journals.
spec fn same_journals(a: ArchiveView, b: ArchiveView) -> bool {
    &&& a.version == b.version
    &&& a.core == b.core
    &&& a.channels == b.channels
    &&& distinct(join_ids(a.prepared)) ==> distinct(join_ids(b.prepared))
}

proof fn lemma_trailer_keeps(buf: Seq<u8>, at: int, a: ArchiveView, d: Reader)
    requires
        trailer_stage(buf, at, a, d) is Ok,
    ensures
        same_journals(a, trailer_stage(buf, at, a, d)->Ok_0),
{
    reveal(trailer_stage);
    let (t, q) = trailer_at(buf, at, a, d)->Ok_0;
    assert(same_journals(a, with_trailer(a, t)));
}

proof fn lemma_central_keeps(buf: Seq<u8>, at: int, a: ArchiveView, d: Reader)
    requires
        central_stage(buf, at, a, d) is Ok,
    ensures
        same_journals(a, central_stage(buf, at, a, d)->Ok_0),
{
    if a.version < 14 {
        lemma_trailer_keeps(buf, at, a, d);
    } else {
        let (sealed, q) = field_at(buf, at)->0;
        let central_ownership = opened_central(sealed, *d.keys, *d.codec)->Ok_0;
        lemma_trailer_keeps(buf, q, ArchiveView { central_ownership, ..a }, d);
    }
}

proof fn lemma_tls_keeps(buf: Seq<u8>, at: int, a: ArchiveView, d: Reader)
    requires
        tls_stage(buf, at, a, d) is Ok,
    ensures
        same_journals(a, tls_stage(buf, at, a, d)->Ok_0),
{
    if a.version < 13 {
        lemma_central_keeps(buf, at, a, d);
    } else {
        let (sealed, q) = field_at(buf, at)->0;
        if sealed.len() == 0 {
            lemma_central_keeps(buf, q, a, d);
        } else {
            let identity = opened_tls(sealed, *d.keys, *d.codec)->Ok_0;
            lemma_central_keeps(buf, q, ArchiveView { tls_identity: Some(identity), ..a }, d);
        }
    }
}

proof fn lemma_prepared_keeps(buf: Seq<u8>, at: int, a: ArchiveView, d: Reader)
    requires
        prepared_stage(buf, at, a, d) is Ok,
    ensures
        same_journals(a, prepared_stage(buf, at, a, d)->Ok_0),
{
    if a.version < 12 {
        lemma_tls_keeps(buf, at, a, d);
    } else {
        let (next, q1) = number_at(buf, at)->0;
        let (n, q2) = count_at(buf, q1, 64)->0;
        let (prepared, q) = joins_at(buf, q2, n, next, a.version, d)->Ok_0;
        lemma_joins_sound(buf, q2, n, next, a.version, d);
        lemma_tls_keeps(buf, q, ArchiveView { next_prep_id: next, prepared, ..a }, d);
    }
}

proof fn lemma_inbox_keeps(buf: Seq<u8>, at: int, a: ArchiveView, d: Reader)
    requires
        inbox_stage(buf, at, a, d) is Ok,
    ensures
        same_journals(a, inbox_stage(buf, at, a, d)->Ok_0),
{
    reveal(inbox_stage);
    if a.version < 11 {
        lemma_prepared_keeps(buf, at, a, d);
    } else {
        let (sealed, q) = field_at(buf, at)->0;
        let application_inbox = opened_inbox(sealed, *d.keys, *d.codec, *d.p)->Ok_0;
        lemma_prepared_keeps(buf, q, ArchiveView { application_inbox, ..a }, d);
    }
}

/// What is read of an archive is in order.
pub proof fn archives_are_sound(buf: Seq<u8>, d: Reader)
    requires
        decoded(buf, d) is Ok,
    ensures
        sound(decoded(buf, d)->Ok_0, d.codec),
        Some(decoded(buf, d)->Ok_0.version) == magic_version(buf),
{
    let version = magic_version(buf)->0;
    let (core, q) = reads::<CoreFrame>(layout_of(version, *d.p), buf, 6)->0;
    let a = core_only(version, numbered(core, version));
    let (n, q1) = count_at(buf, q, d.p.channel_max as nat)->0;
    let (channels, routes, q2) = channels_at(buf, q1, n, version, d)->Ok_0;
    lemma_channels_sound(buf, q1, n, version, d);
    let b = ArchiveView { channels, routes, ..a };
    let (policy, q3) = reads::<PolicyFrame>(layout_of(version, *d.p), buf, q2)->0;
    let c = ArchiveView { policy, ..b };
    assert(policy_stage(buf, q2, b, d) == inbox_stage(buf, q3, c, d));
    lemma_inbox_keeps(buf, q3, c, d);
}

} // verus!
