//! An archive is neither cut short nor followed by anything.

use vstd::prelude::*;
use crate::archive::{central_stage, channel_at, channel_stage, channels_at, core_only, count_at, decoded, either_trailer, field_at, inbox_stage, join_at, joins_at, layout_of, magic_version, number_at, one_at, owner_in, policy_stage, prepared_stage, receipts_stage, retained_trailer, routes_at, tls_stage, trailer_at, trailer_stage, with_trailer, ArchiveView, NamedRoutesView, PreparedJoinView, Reader};
use crate::archive_check::numbered;
use crate::archive_frame::{ArchivedChannelView, CoreFrame, PolicyFrame};
use crate::error::Error;
use crate::grammar::{parse, parse_is_local, render_of_parse, Shape};
use crate::owner_record::{bare, opened_record, owner_plain, RecordFrame};
use crate::record::{parse_then, reads, Framed};
use crate::sealed_parts::{opened_central, opened_inbox, opened_machine, opened_tls};

verus! {

/// What stands at a place stands there whatever follows.
broadcast proof fn parse_stays(f: Shape, s: Seq<u8>, z: Seq<u8>, p: int)
    requires
        0 <= p <= s.len(),
        parse(f, s, p) is Some,
    ensures
        #[trigger] parse(f, s + z, p) == parse(f, s, p),
        p <= (parse(f, s, p)->0).1 <= s.len(),
{
    render_of_parse(f, s, p);
    let q = (parse(f, s, p)->0).1;
    assert((s + z).subrange(p, q) =~= s.subrange(p, q));
    parse_is_local(f, s, s + z, p);
}

/// Where a part of an archive ends.
spec fn ends<T>(r: Result<(T, int), Error>, at: int, s: Seq<u8>) -> bool {
    r matches Ok((_, q)) && at <= q <= s.len()
}

proof fn lemma_channel_stays(s: Seq<u8>, z: Seq<u8>, at: int, before: Seq<ArchivedChannelView>, version: u8, d: Reader)
    requires
        0 <= at <= s.len(),
        channel_at(s, at, before, version, d) is Ok,
    ensures
        channel_at(s + z, at, before, version, d) == channel_at(s, at, before, version, d),
        at <= channel_at(s, at, before, version, d)->Ok_0.2 <= s.len(),
{
    broadcast use parse_stays;

    reveal(channel_at);
}

proof fn lemma_channels_stay(s: Seq<u8>, z: Seq<u8>, at: int, n: nat, version: u8, d: Reader)
    requires
        0 <= at <= s.len(),
        channels_at(s, at, n, version, d) is Ok,
    ensures
        channels_at(s + z, at, n, version, d) == channels_at(s, at, n, version, d),
        at <= channels_at(s, at, n, version, d)->Ok_0.2 <= s.len(),
    decreases n,
{
    if n > 0 {
        let m = (n - 1) as nat;
        lemma_channels_stay(s, z, at, m, version, d);
        let (before, _, q) = channels_at(s, at, m, version, d)->Ok_0;
        lemma_channel_stays(s, z, q, before, version, d);
    }
}

proof fn lemma_join_stays(s: Seq<u8>, z: Seq<u8>, at: int, before: Seq<PreparedJoinView>, next: u64, version: u8, d: Reader)
    requires
        0 <= at <= s.len(),
        join_at(s, at, before, next, version, d) is Ok,
    ensures
        join_at(s + z, at, before, next, version, d) == join_at(s, at, before, next, version, d),
        ends(join_at(s, at, before, next, version, d), at, s),
{
    broadcast use parse_stays;

    reveal(join_at);
}

proof fn lemma_joins_stay(s: Seq<u8>, z: Seq<u8>, at: int, n: nat, next: u64, version: u8, d: Reader)
    requires
        0 <= at <= s.len(),
        joins_at(s, at, n, next, version, d) is Ok,
    ensures
        joins_at(s + z, at, n, next, version, d) == joins_at(s, at, n, next, version, d),
        ends(joins_at(s, at, n, next, version, d), at, s),
    decreases n,
{
    if n > 0 {
        let m = (n - 1) as nat;
        lemma_joins_stay(s, z, at, m, next, version, d);
        let (before, q) = joins_at(s, at, m, next, version, d)->Ok_0;
        lemma_join_stays(s, z, q, before, next, version, d);
    }
}

proof fn lemma_one_stays(
    s: Seq<u8>,
    z: Seq<u8>,
    at: int,
    recovered: bool,
    before: Seq<NamedRoutesView>,
    channels: Seq<ArchivedChannelView>,
    version: u8,
    d: Reader,
)
    requires
        0 <= at <= s.len(),
        one_at(s, at, recovered, before, channels, version, d) is Ok,
    ensures
        one_at(s + z, at, recovered, before, channels, version, d) == one_at(s, at, recovered, before, channels, version, d),
        ends(one_at(s, at, recovered, before, channels, version, d), at, s),
{
    broadcast use parse_stays;

    reveal(one_at);
}

proof fn lemma_routes_stay(s: Seq<u8>, z: Seq<u8>, at: int, n: nat, recovered: bool, channels: Seq<ArchivedChannelView>, version: u8, d: Reader)
    requires
        0 <= at <= s.len(),
        routes_at(s, at, n, recovered, channels, version, d) is Ok,
    ensures
        routes_at(s + z, at, n, recovered, channels, version, d) == routes_at(s, at, n, recovered, channels, version, d),
        ends(routes_at(s, at, n, recovered, channels, version, d), at, s),
    decreases n,
{
    if n > 0 {
        let m = (n - 1) as nat;
        lemma_routes_stay(s, z, at, m, recovered, channels, version, d);
        let (before, q) = routes_at(s, at, m, recovered, channels, version, d)->Ok_0;
        lemma_one_stays(s, z, q, recovered, before, channels, version, d);
    }
}

proof fn lemma_trailer_stays(s: Seq<u8>, z: Seq<u8>, at: int, a: ArchiveView, d: Reader)
    requires
        0 <= at <= s.len(),
        a.version != 16,
        trailer_at(s, at, a, d) is Ok,
    ensures
        trailer_at(s + z, at, a, d) == trailer_at(s, at, a, d),
        ends(trailer_at(s, at, a, d), at, s),
{
    broadcast use parse_stays;

    if a.version > 17 {
        let (_, q1) = field_at(s, at)->0;
        let (_, q2) = field_at(s, q1)->0;
        let (_, q3) = field_at(s, q2)->0;
        let (n, q4) = count_at(s, q3, 1024)->0;
        assert(field_at(s + z, at) == field_at(s, at));
        assert(field_at(s + z, q1) == field_at(s, q1));
        assert(field_at(s + z, q2) == field_at(s, q2));
        assert(count_at(s + z, q3, 1024) == count_at(s, q3, 1024));
        lemma_routes_stay(s, z, q4, n, false, a.channels, a.version, d);
    }
}

/// What says who owns the machine is too short for an owner's record.
proof fn lemma_scope_is_no_record(sealed: Seq<u8>, d: Reader)
    requires
        opened_machine(sealed, *d.keys, *d.codec) is Ok,
    ensures
        owner_in(sealed, d) is Err,
{
    reveal(opened_record);
    broadcast use parse_then;

    let plain = owner_plain(sealed, *d.keys, *d.codec);
    if plain is Ok {
        assert(plain->Ok_0.len() == 1);
        assert(parse(RecordFrame::shape(bare()), plain->Ok_0, 0) is None);
    }
}

/// Neither grammar of version sixteen reads on after what the other has read.
proof fn lemma_either_ends(s: Seq<u8>, z: Seq<u8>, at: int, central: bool, channels: Seq<ArchivedChannelView>, version: u8, d: Reader)
    requires
        0 <= at <= s.len(),
        z.len() > 0,
        either_trailer(s, at, central, channels, version, d) is Ok,
    ensures
        either_trailer(s + z, at, central, channels, version, d) is Err,
{
    broadcast use parse_stays;

    let (first, q1) = field_at(s, at)->0;
    assert(field_at(s + z, at) == Some((first, q1)));
    let (second, q2) = field_at(s, q1)->0;
    assert(field_at(s + z, q1) == Some((second, q2)));
    if retained_trailer(s, at, central, d) is Ok {
        lemma_scope_is_no_record(first, d);
    } else {
        if opened_machine(first, *d.keys, *d.codec) is Ok {
            lemma_scope_is_no_record(first, d);
        }
        let (n, q3) = count_at(s, q2, 1024)->0;
        assert(count_at(s + z, q2, 1024) == Some((n, q3)));
        lemma_routes_stay(s, z, q3, n, true, channels, version, d);
    }
}

proof fn lemma_trailer_ends(s: Seq<u8>, z: Seq<u8>, at: int, a: ArchiveView, d: Reader)
    requires
        0 <= at <= s.len(),
        z.len() > 0,
        trailer_stage(s, at, a, d) is Ok,
    ensures
        trailer_stage(s + z, at, a, d) is Err,
{
    broadcast use parse_stays;

    reveal(trailer_stage);
    if a.version == 16 {
        lemma_either_ends(s, z, at, a.central_ownership is Some, a.channels, a.version, d);
    } else {
        lemma_trailer_stays(s, z, at, a, d);
        let (t, q) = trailer_at(s, at, a, d)->Ok_0;
        let b = with_trailer(a, t);
        assert(receipts_stage(s, q, b, d) is Ok);
        if b.version >= 21 {
            assert(field_at(s + z, q) == field_at(s, q));
        }
    }
}

proof fn lemma_central_ends(s: Seq<u8>, z: Seq<u8>, at: int, a: ArchiveView, d: Reader)
    requires
        0 <= at <= s.len(),
        z.len() > 0,
        central_stage(s, at, a, d) is Ok,
    ensures
        central_stage(s + z, at, a, d) is Err,
{
    broadcast use parse_stays;

    if a.version < 14 {
        lemma_trailer_ends(s, z, at, a, d);
    } else {
        let (sealed, q) = field_at(s, at)->0;
        assert(field_at(s + z, at) == Some((sealed, q)));
        let central_ownership = opened_central(sealed, *d.keys, *d.codec)->Ok_0;
        lemma_trailer_ends(s, z, q, ArchiveView { central_ownership, ..a }, d);
    }
}

proof fn lemma_tls_ends(s: Seq<u8>, z: Seq<u8>, at: int, a: ArchiveView, d: Reader)
    requires
        0 <= at <= s.len(),
        z.len() > 0,
        tls_stage(s, at, a, d) is Ok,
    ensures
        tls_stage(s + z, at, a, d) is Err,
{
    broadcast use parse_stays;

    if a.version < 13 {
        lemma_central_ends(s, z, at, a, d);
    } else {
        let (sealed, q) = field_at(s, at)->0;
        assert(field_at(s + z, at) == Some((sealed, q)));
        if sealed.len() == 0 {
            lemma_central_ends(s, z, q, a, d);
        } else {
            let identity = opened_tls(sealed, *d.keys, *d.codec)->Ok_0;
            lemma_central_ends(s, z, q, ArchiveView { tls_identity: Some(identity), ..a }, d);
        }
    }
}

proof fn lemma_prepared_ends(s: Seq<u8>, z: Seq<u8>, at: int, a: ArchiveView, d: Reader)
    requires
        0 <= at <= s.len(),
        z.len() > 0,
        prepared_stage(s, at, a, d) is Ok,
    ensures
        prepared_stage(s + z, at, a, d) is Err,
{
    broadcast use parse_stays;

    if a.version < 12 {
        lemma_tls_ends(s, z, at, a, d);
    } else {
        let (next, q1) = number_at(s, at)->0;
        assert(number_at(s + z, at) == Some((next, q1)));
        let (n, q2) = count_at(s, q1, 64)->0;
        assert(count_at(s + z, q1, 64) == Some((n, q2)));
        lemma_joins_stay(s, z, q2, n, next, a.version, d);
        let (prepared, q) = joins_at(s, q2, n, next, a.version, d)->Ok_0;
        lemma_tls_ends(s, z, q, ArchiveView { next_prep_id: next, prepared, ..a }, d);
    }
}

proof fn lemma_inbox_ends(s: Seq<u8>, z: Seq<u8>, at: int, a: ArchiveView, d: Reader)
    requires
        0 <= at <= s.len(),
        z.len() > 0,
        inbox_stage(s, at, a, d) is Ok,
    ensures
        inbox_stage(s + z, at, a, d) is Err,
{
    broadcast use parse_stays;

    reveal(inbox_stage);
    if a.version < 11 {
        lemma_prepared_ends(s, z, at, a, d);
    } else {
        let (sealed, q) = field_at(s, at)->0;
        assert(field_at(s + z, at) == Some((sealed, q)));
        let application_inbox = opened_inbox(sealed, *d.keys, *d.codec, *d.p)->Ok_0;
        lemma_prepared_ends(s, z, q, ArchiveView { application_inbox, ..a }, d);
    }
}

proof fn lemma_policy_ends(s: Seq<u8>, z: Seq<u8>, at: int, a: ArchiveView, d: Reader)
    requires
        0 <= at <= s.len(),
        z.len() > 0,
        policy_stage(s, at, a, d) is Ok,
    ensures
        policy_stage(s + z, at, a, d) is Err,
{
    broadcast use parse_stays;

    let (policy, q) = reads::<PolicyFrame>(layout_of(a.version, *d.p), s, at)->0;
    assert(reads::<PolicyFrame>(layout_of(a.version, *d.p), s + z, at) == Some((policy, q)));
    lemma_inbox_ends(s, z, q, ArchiveView { policy, ..a }, d);
}

proof fn lemma_channel_ends(s: Seq<u8>, z: Seq<u8>, at: int, a: ArchiveView, d: Reader)
    requires
        0 <= at <= s.len(),
        z.len() > 0,
        channel_stage(s, at, a, d) is Ok,
    ensures
        channel_stage(s + z, at, a, d) is Err,
{
    broadcast use parse_stays;

    let (n, q1) = count_at(s, at, d.p.channel_max as nat)->0;
    assert(count_at(s + z, at, d.p.channel_max as nat) == Some((n, q1)));
    lemma_channels_stay(s, z, q1, n, a.version, d);
    let (channels, routes, q) = channels_at(s, q1, n, a.version, d)->Ok_0;
    lemma_policy_ends(s, z, q, ArchiveView { channels, routes, ..a }, d);
}

/// An archive that reads is refused as soon as anything follows it.
pub proof fn nothing_follows_an_archive(s: Seq<u8>, z: Seq<u8>, d: Reader)
    requires
        decoded(s, d) is Ok,
        z.len() > 0,
    ensures
        decoded(s + z, d) is Err,
{
    broadcast use parse_stays;

    let version = magic_version(s)->0;
    assert(magic_version(s + z) == Some(version));
    let (core, q) = reads::<CoreFrame>(layout_of(version, *d.p), s, 6)->0;
    assert(reads::<CoreFrame>(layout_of(version, *d.p), s + z, 6) == Some((core, q)));
    lemma_channel_ends(s, z, q, core_only(version, numbered(core, version)), d);
}

/// An archive that reads is refused when it is cut short anywhere.
pub proof fn no_archive_is_cut_short(s: Seq<u8>, n: int, d: Reader)
    requires
        decoded(s, d) is Ok,
        0 <= n < s.len(),
    ensures
        decoded(s.take(n), d) is Err,
{
    if decoded(s.take(n), d) is Ok {
        let z = s.skip(n);
        assert(s.take(n) + z =~= s);
        nothing_follows_an_archive(s.take(n), z, d);
    }
}

} // verus!
