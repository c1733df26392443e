//! What a node writes, it reads back.

use vstd::prelude::*;
use vstd::utf8::encode_utf8;
use crate::archive::{all_may_wait, central_stage, channel_at, channel_names, channel_stage, channels_at, core_only, count_at, decoded, directory_in, field_at, inbox_stage, join_at, join_ids, joins_at, layout_of, magic_version, max_archive, may_wait, number_at, one_at, option_at, owner_in, policy_stage, prepared_stage, receipts_stage, role_named, route_names, routes_at, tls_stage, trailer_at, trailer_stage, unified_at, with_trailer, ArchiveView, NamedRoutesView, PreparedJoinView, Reader, TrailerView};
use crate::archive_check::{body_good, core_good, policy_good, reconciled, ChannelFacts, Checks};
use crate::archive_frame::{ArchivedChannel, ArchivedChannelView, ChannelBody, ChannelHead, CoreFrame, CoreView, NameFrame, NameView, PolicyFrame, PolicyView, PreparedFrame, PreparedView, RouteEntryFrame, RouteEntryView, SealedView, TailFrame, TrailerFrame, TrailerFrameView};
use crate::archive_write::{channel_entries, channel_routes_kept, channels_shape, channels_tree, core_entry, credited, current_route, encodes, encodes_machine, encodes_owner, encodes_tail, end_entry, grants_kept, has_routes, holds, join_kept, joins_kept, joins_refusal, journals_bytes, journals_refusal, magic, policy_entry, role_of, routes_kept, routes_refusal, seals_directory, seals_owner, seals_receipts, tail_entry, write_layout, writes_central, writes_end, writes_joins, writes_journals, writes_receipts, writes_tail, written_version, Writer};
use crate::channel_route::prepared_route;
use crate::codec::{Codec, NodeKeys, Protocol};
use crate::error::Error;
use crate::grammar::{maybe, parse, parse_all, parse_of_render, render, Shape, Tree};
use crate::model::{views, OwnedChannelRouteView};
use crate::node_state::{ChannelState, NodeState, PreparedChannelJoin};
use crate::owner_aliases::{limited_record, observation, spec_active_target, RecordView};
use crate::owner_record::{opened_record, opening_undoes_sealing, seals_record};
use crate::owner_state::{live_record, seals_current};
use crate::record::{bytes_view, lemma_many_fits, lemma_seen, maybe_view, oversize, parse_then, reads, rendered, size_error, trees, written_reads_back, Framed, Layout};
use crate::sealed_parts::{opened_receipts, opened_tls, seals_central, seals_inbox, seals_machine};

verus! {

/// What the first `n` items from a place on say.
spec fn items(f: Shape, n: nat, s: Seq<u8>, p: int) -> Seq<Tree> {
    match parse_all(f, n, s, p) {
        Some((x, _)) => x,
        None => Seq::empty(),
    }
}

/// Where they end.
spec fn items_end(f: Shape, n: nat, s: Seq<u8>, p: int) -> int {
    match parse_all(f, n, s, p) {
        Some((_, q)) => q,
        None => p,
    }
}

/// Where the first items of a list end, and what stands there.
proof fn lemma_items(f: Shape, n: nat, s: Seq<u8>, p: int, i: nat)
    requires
        parse_all(f, n, s, p) is Some,
        i <= n,
    ensures
        parse_all(f, i, s, p) is Some,
        items(f, n, s, p).len() == n,
        items(f, i, s, p) == items(f, n, s, p).take(i as int),
        i < n ==> parse_all(f, i + 1, s, p) is Some && parse(f, s, items_end(f, i, s, p)) == Some(
            (items(f, n, s, p)[i as int], items_end(f, i + 1, s, p)),
        ),
    decreases n,
{
    if n == 0 {
        assert(items(f, n, s, p).take(0) =~= Seq::<Tree>::empty());
    } else {
        let m = (n - 1) as nat;
        let (x, q) = parse_all(f, m, s, p)->0;
        let (y, r) = parse(f, s, q)->0;
        assert(parse_all(f, n, s, p) == Some((x.push(y), r)));
        if i < n {
            lemma_items(f, m, s, p, i);
            assert(x.push(y).take(i as int) =~= x.take(i as int));
            if i == m {
                assert(x.take(m as int) =~= x);
            } else {
                lemma_items(f, m, s, p, i + 1);
            }
        } else {
            lemma_items(f, m, s, p, m);
            assert(x.push(y).take(n as int) =~= x.push(y));
        }
    }
}

/// The record at the place of an item.
proof fn lemma_item_reads<R: Framed>(vs: Seq<R::V>, layout: Layout, s: Seq<u8>, p: int, i: int)
    requires
        parse_all(R::shape(layout), vs.len(), s, p) is Some,
        items(R::shape(layout), vs.len(), s, p) == trees::<R>(vs, layout),
        0 <= i < vs.len(),
        R::plain(vs[i], layout),
    ensures
        parse(R::shape(layout), s, items_end(R::shape(layout), i as nat, s, p)) == Some(
            (R::tree(vs[i], layout), items_end(R::shape(layout), (i + 1) as nat, s, p)),
        ),
        reads::<R>(layout, s, items_end(R::shape(layout), i as nat, s, p)) == Some(
            (vs[i], items_end(R::shape(layout), (i + 1) as nat, s, p)),
        ),
{
    lemma_items(R::shape(layout), vs.len(), s, p, i as nat);
    assert(trees::<R>(vs, layout)[i] == R::tree(vs[i], layout));
    lemma_seen::<R>(vs[i], layout);
}

pub open spec fn reader<'a>(w: Writer<'a>) -> Reader<'a> {
    Reader { keys: w.keys, codec: w.codec, p: w.p }
}

/// Whether a channel is one that readers take after others.
pub open spec fn channel_readable(c: ArchivedChannelView, before: Seq<ArchivedChannelView>, layout: Layout, codec: &Codec) -> bool {
    &&& encode_utf8(c.head.name).len() > 0
    &&& !channel_names(before).contains(c.head.name)
    &&& codec.role(c.head.owner, c.head.name, c.head.blob) is Some
    &&& body_good(c.body, facts_of(c, layout.version, codec))
}

/// Whether the channels of an archive are such as readers take.
pub open spec fn channels_readable(cs: Seq<ArchivedChannelView>, layout: Layout, codec: &Codec) -> bool {
    &&& crate::record::all_bounded::<ArchivedChannel>(cs, layout.channel_max as nat, layout)
    &&& crate::record::all_plain::<ArchivedChannel>(cs, layout)
    &&& forall|i: int| 0 <= i < cs.len() ==> channel_readable(#[trigger] cs[i], cs.take(i), layout, codec)
}

/// What the journals of a channel are checked against.
pub open spec fn facts_of(c: ArchivedChannelView, version: u8, codec: &Codec) -> ChannelFacts {
    ChannelFacts {
        c: Checks { version, codec },
        name: c.head.name,
        role: codec.role(c.head.owner, c.head.name, c.head.blob)->0,
    }
}

/// Channels as they are read: each directory is held to the role.
pub open spec fn channels_back(cs: Seq<ArchivedChannelView>, version: u8, codec: &Codec) -> Seq<ArchivedChannelView> {
    Seq::new(
        cs.len(),
        |i: int| ArchivedChannelView { head: cs[i].head, body: reconciled(cs[i].body, facts_of(cs[i], version, codec)) },
    )
}

proof fn lemma_names_back(cs: Seq<ArchivedChannelView>, version: u8, codec: &Codec)
    ensures
        channel_names(channels_back(cs, version, codec)) == channel_names(cs),
{
    assert(channel_names(channels_back(cs, version, codec)) =~= channel_names(cs));
}

proof fn lemma_channels_read(cs: Seq<ArchivedChannelView>, n: nat, s: Seq<u8>, p: int, d: Reader, version: u8)
    requires
        version != 17,
        channels_readable(cs, layout_of(version, *d.p), d.codec),
        parse_all(ArchivedChannel::shape(layout_of(version, *d.p)), cs.len(), s, p) is Some,
        items(ArchivedChannel::shape(layout_of(version, *d.p)), cs.len(), s, p) == trees::<ArchivedChannel>(
            cs,
            layout_of(version, *d.p),
        ),
        n <= cs.len(),
    ensures
        channels_at(s, p, n, version, d) == Ok::<(Seq<ArchivedChannelView>, Seq<NamedRoutesView>, int), Error>(
            (
                channels_back(cs, version, d.codec).take(n as int),
                Seq::empty(),
                items_end(ArchivedChannel::shape(layout_of(version, *d.p)), n, s, p),
            ),
        ),
    decreases n,
{
    let layout = layout_of(version, *d.p);
    let f = ArchivedChannel::shape(layout);
    lemma_items(f, cs.len(), s, p, n);
    let back = channels_back(cs, version, d.codec);
    if n == 0 {
        assert(back.take(0) =~= Seq::<ArchivedChannelView>::empty());
    } else {
        let m = (n - 1) as nat;
        lemma_channels_read(cs, m, s, p, d, version);
        assert(channel_names(back.take(m as int)) =~= channel_names(cs.take(m as int)));
        let c = cs[m as int];
        let q = items_end(f, m, s, p);
        lemma_item_reads::<ArchivedChannel>(cs, layout, s, p, m as int);
        assert(channel_readable(c, cs.take(m as int), layout, d.codec));
        assert(channel_at(s, q, back.take(m as int), version, d) == Ok::<
            (ArchivedChannelView, Option<NamedRoutesView>, int),
            Error,
        >((back[m as int], None, items_end(f, n, s, p)))) by {
            reveal(channel_at);
            broadcast use parse_then;

            lemma_seen::<ChannelHead>(c.head, layout);
            lemma_seen::<ChannelBody>(c.body, layout);
        }
        assert(back.take(m as int).push(back[m as int]) =~= back.take(n as int));
    }
}

/// Whether prepared joins are such as readers take.
pub open spec fn joins_readable(joins: Seq<(u64, PreparedChannelJoin)>, next: u64, w: Writer) -> bool {
    &&& next != 0
    &&& joins.len() <= 64
    &&& forall|i: int|
        0 <= i < joins.len() ==> {
            let route = (#[trigger] joins[i]).1.route@;
            &&& 0 < joins[i].0 < next
            &&& w.codec.joins.lookup(joins[i].1.mls@) == Some(route.public.pseudonym)
            &&& w.codec.secret(w.keys.seed@, route.public.pseudonym@) == Some(route.direct_secret)
            &&& route.aliases[0].contact == route.public.data
            &&& route.aliases[1].contact == route.public.control
            &&& route.aliases[0].capabilities.push == route.public.data.push_cap
            &&& route.aliases[1].capabilities.push == route.public.control.push_cap
        }
    &&& forall|i: int, j: int| 0 <= i < j < joins.len() ==> (#[trigger] joins[i]).0 != (#[trigger] joins[j]).0
}

/// A prepared join as it is read.
pub open spec fn join_view(id: u64, join: PreparedChannelJoin) -> PreparedJoinView {
    PreparedJoinView { id, display: join.display@, mls: join.mls@, route: join.route@ }
}

pub open spec fn join_views(joins: Seq<(u64, PreparedChannelJoin)>) -> Seq<PreparedJoinView> {
    Seq::new(joins.len(), |i: int| join_view(joins[i].0, joins[i].1))
}

proof fn lemma_no_refusal(joins: Seq<(u64, PreparedChannelJoin)>, n: nat, w: Writer, i: int)
    requires
        joins_refusal(joins, n, w) is None,
        0 <= i < n,
    ensures
        crate::archive_write::join_refusal(joins[i].1, w) is None,
    decreases n,
{
    if i < n - 1 {
        lemma_no_refusal(joins, (n - 1) as nat, w, i);
    }
}

proof fn lemma_joins_read(joins: Seq<(u64, PreparedChannelJoin)>, out: Seq<PreparedView>, n: nat, next: u64, s: Seq<u8>, p: int, version: u8, w: Writer)
    requires
        joins_readable(joins, next, w),
        joins_kept(joins, out, w),
        joins_refusal(joins, joins.len(), w) is None,
        w.codec.routes.wf(),
        parse_all(PreparedFrame::shape(layout_of(version, *w.p)), out.len(), s, p) is Some,
        items(PreparedFrame::shape(layout_of(version, *w.p)), out.len(), s, p) == trees::<PreparedFrame>(
            out,
            layout_of(version, *w.p),
        ),
        n <= out.len(),
    ensures
        joins_at(s, p, n, next, version, reader(w)) == Ok::<(Seq<PreparedJoinView>, int), Error>(
            (join_views(joins).take(n as int), items_end(PreparedFrame::shape(layout_of(version, *w.p)), n, s, p)),
        ),
    decreases n,
{
    let layout = layout_of(version, *w.p);
    let f = PreparedFrame::shape(layout);
    let all = join_views(joins);
    lemma_items(f, out.len(), s, p, n);
    if n == 0 {
        assert(all.take(0) =~= Seq::<PreparedJoinView>::empty());
    } else {
        let m = (n - 1) as nat;
        lemma_joins_read(joins, out, m, next, s, p, version, w);
        lemma_item_reads::<PreparedFrame>(out, layout, s, p, m as int);
        let q = items_end(f, m, s, p);
        let before = all.take(m as int);
        let join = joins[m as int].1;
        let route = join.route@;
        assert(join_kept(joins[m as int].0, join, out[m as int], w));
        assert(joins[m as int].1.route@ == route);
        lemma_no_refusal(joins, joins.len(), w, m as int);
        assert(!join_ids(before).contains(joins[m as int].0)) by {
            if join_ids(before).contains(joins[m as int].0) {
                let k = join_ids(before).index_of(joins[m as int].0);
                assert(before[k] == all[k]);
                assert(joins[k].0 == joins[m as int].0);
            }
        }
        crate::channel_route::lemma_route_reads(route, route.direct_secret, *w.codec);
        assert(OwnedChannelRouteView { direct_secret: route.direct_secret, ..route } == route);
        assert(prepared_route(out[m as int].route, route.public.pseudonym, *w.keys, *w.codec) == Ok::<OwnedChannelRouteView, Error>(route));
        assert(join_at(s, q, before, next, version, reader(w)) == Ok::<(PreparedJoinView, int), Error>(
            (all[m as int], items_end(f, n, s, p)),
        )) by {
            reveal(join_at);
        }
        assert(before.push(all[m as int]) =~= all.take(n as int));
    }
}

/// The routes of this node in the first `n` channels.
pub open spec fn route_views(channels: Seq<(String, ChannelState)>, n: nat) -> Seq<NamedRoutesView>
    decreases n,
{
    if n == 0 {
        Seq::empty()
    } else {
        let before = route_views(channels, (n - 1) as nat);
        let c = channels[n - 1].1;
        if has_routes(c) {
            before.push(
                NamedRoutesView {
                    name: channels[n - 1].0@,
                    current: maybe_view(current_route(c)),
                    previous: maybe_view(c.previous_own_route),
                },
            )
        } else {
            before
        }
    }
}

/// Whether no sealed route is longer than readers take.
pub open spec fn routes_short(channels: Seq<(String, ChannelState)>, codec: Codec) -> bool {
    forall|i: int|
        0 <= i < channels.len() ==> {
            let c = (#[trigger] channels[i]).1;
            &&& crate::channel_route::route_plain(c.own_route@, codec).len() + 28 <= 0x1_0000
            &&& c.previous_own_route is Some ==> crate::channel_route::route_plain(c.previous_own_route->0@, codec).len() + 28 <= 0x1_0000
        }
}

/// Where every item is kept, each has its entry.
proof fn lemma_all_kept<W: Copy, S: crate::archive_item::Stored<W>>(s: Seq<S>, n: nat, w: W)
    requires
        n <= s.len(),
        forall|i: int| 0 <= i < s.len() ==> (#[trigger] s[i]).kept(w),
    ensures
        crate::archive_item::entries_of(s, n, w).len() == n,
        forall|i: int| 0 <= i < n ==> #[trigger] crate::archive_item::entries_of(s, n, w)[i] == s[i].entry(w),
    decreases n,
{
    if n > 0 {
        lemma_all_kept(s, (n - 1) as nat, w);
    }
}

/// Channels are found by their name, with the role that they have.
proof fn lemma_role_found(st: &NodeState, w: Writer, i: int, layout: Layout)
    requires
        0 <= i < st.channels.entries@.len(),
        channels_readable(channel_entries(st, w), layout, w.codec),
    ensures
        channel_entries(st, w).len() == st.channels.entries@.len(),
        role_named(channels_kept(st, w), st.channels.entries@[i].0@, *w.codec) == role_of(
            st.channels.entries@[i].0@,
            &st.channels.entries@[i].1,
            *w.codec,
        ),
{
    let cs = channel_entries(st, w);
    let e = crate::archive_write::channels_writing(w);
    lemma_all_kept(st.channels.entries@, st.channels.entries@.len(), e);
    let name = st.channels.entries@[i].0@;
    let names = channel_names(cs);
    assert(cs[i] == crate::archive_item::Stored::entry(&st.channels.entries@[i], e));
    assert(names[i] == name);
    assert forall|j: int| 0 <= j < i implies names[j] != name by {
        assert(channel_readable(cs[i], cs.take(i), layout, w.codec));
        assert(channel_names(cs.take(i))[j] == names[j]);
    }
    crate::table::lemma_place_is(names, name, i);
    assert(names.contains(name));
    lemma_names_back(cs, written_version(*st, w.replaced), w.codec);
    assert(channels_kept(st, w)[i].head == cs[i].head);
}

proof fn lemma_route_names(channels: Seq<(String, ChannelState)>, n: nat, name: Seq<char>)
    requires
        route_names(route_views(channels, n)).contains(name),
    ensures
        exists|i: int| 0 <= i < n && (#[trigger] channels[i]).0@ == name,
    decreases n,
{
    let vs = route_views(channels, n);
    if n > 0 {
        let before = route_views(channels, (n - 1) as nat);
        let k = route_names(vs).index_of(name);
        if has_routes(channels[n - 1].1) {
            if k < before.len() {
                assert(route_names(before)[k] == name);
                lemma_route_names(channels, (n - 1) as nat, name);
            } else {
                assert(channels[n - 1].0@ == name);
            }
        } else {
            lemma_route_names(channels, (n - 1) as nat, name);
        }
    }
}

proof fn lemma_no_route_refusal(channels: Seq<(String, ChannelState)>, n: nat, w: Writer, i: int)
    requires
        routes_refusal(channels, n, w) is None,
        0 <= i < n,
        has_routes(channels[i].1),
    ensures
        crate::archive_write::channel_route_refusal(channels[i].0@, channels[i].1, w) is None,
    decreases n,
{
    if i < n - 1 {
        lemma_no_route_refusal(channels, (n - 1) as nat, w, i);
    }
}

/// One route entry reads as the routes that it keeps.
proof fn lemma_route_entry(
    name: Seq<char>,
    c: ChannelState,
    out: RouteEntryView,
    before: Seq<NamedRoutesView>,
    cs: Seq<ArchivedChannelView>,
    s: Seq<u8>,
    q: int,
    end: int,
    version: u8,
    w: Writer,
)
    requires
        parse(RouteEntryFrame::shape(layout_of(version, *w.p)), s, q) == Some((RouteEntryFrame::tree(out, layout_of(version, *w.p)), end)),
        channel_routes_kept(name, c, out, w),
        has_routes(c),
        crate::archive_write::channel_route_refusal(name, c, w) is None,
        role_named(cs, name, *w.codec) == role_of(name, &c, *w.codec),
        !route_names(before).contains(name),
        w.codec.routes.wf(),
        crate::channel_route::route_plain(c.own_route@, *w.codec).len() + 28 <= 0x1_0000,
        c.previous_own_route is Some ==> crate::channel_route::route_plain(c.previous_own_route->0@, *w.codec).len() + 28 <= 0x1_0000,
    ensures
        one_at(s, q, false, before, cs, version, reader(w)) == Ok::<(NamedRoutesView, int), Error>(
            (NamedRoutesView { name, current: maybe_view(current_route(c)), previous: maybe_view(c.previous_own_route) }, end),
        ),
{
    broadcast use parse_then;

    reveal(one_at);
    let layout = layout_of(version, *w.p);
    let role = role_of(name, &c, *w.codec)->0;
    lemma_seen::<NameFrame>(NameView { name }, layout);
    let q1 = match parse(Shape::Text(2), s, q) {
        Some((_, x)) => x,
        None => 0,
    };
    let q2 = match parse(maybe(Shape::Field(4)), s, q1) {
        Some((_, x)) => x,
        None => 0,
    };
    assert(reads::<NameFrame>(layout, s, q) == Some((NameView { name }, q1)));
    assert(option_at(s, q1) == Some((out.current, q2)));
    assert(option_at(s, q2) == Some((out.previous, end)));
    if current_route(c) is Some {
        crate::channel_route::lemma_route_opens(c.own_route@, name, role, false, *w.keys, *w.codec, *w.p, out.current->0);
    }
    if c.previous_own_route is Some {
        crate::channel_route::lemma_route_opens(
            c.previous_own_route->0@,
            name,
            role,
            true,
            *w.keys,
            *w.codec,
            *w.p,
            out.previous->0,
        );
    }
    assert(unified_at(s, q1, name, role, false, reader(w)) == Ok::<(Option<OwnedChannelRouteView>, int), Error>(
        (maybe_view(current_route(c)), q2),
    ));
    assert(unified_at(s, q2, name, role, true, reader(w)) == Ok::<(Option<OwnedChannelRouteView>, int), Error>(
        (maybe_view(c.previous_own_route), end),
    ));
}

#[verifier::rlimit(40)]
#[verifier::spinoff_prover]
proof fn lemma_routes_read(st: &NodeState, out: Seq<RouteEntryView>, n: nat, s: Seq<u8>, p: int, version: u8, w: Writer)
    requires
        n <= st.channels.entries@.len(),
        channels_readable(channel_entries(st, w), layout_of(version, *w.p), w.codec),
        routes_kept(st.channels.entries@, n, out.take(route_views(st.channels.entries@, n).len() as int), w),
        route_views(st.channels.entries@, n).len() <= out.len(),
        routes_refusal(st.channels.entries@, st.channels.entries@.len(), w) is None,
        routes_short(st.channels.entries@, *w.codec),
        w.codec.routes.wf(),
        parse_all(RouteEntryFrame::shape(layout_of(version, *w.p)), out.len(), s, p) is Some,
        items(RouteEntryFrame::shape(layout_of(version, *w.p)), out.len(), s, p) == trees::<RouteEntryFrame>(
            out,
            layout_of(version, *w.p),
        ),
    ensures
        routes_at(
            s,
            p,
            route_views(st.channels.entries@, n).len(),
            false,
            channels_kept(st, w),
            version,
            reader(w),
        ) == Ok::<(Seq<NamedRoutesView>, int), Error>(
            (
                route_views(st.channels.entries@, n),
                items_end(RouteEntryFrame::shape(layout_of(version, *w.p)), route_views(st.channels.entries@, n).len(), s, p),
            ),
        ),
    decreases n,
{
    let channels = st.channels.entries@;
    let layout = layout_of(version, *w.p);
    let f = RouteEntryFrame::shape(layout);
    let vs = route_views(channels, n);
    lemma_items(f, out.len(), s, p, vs.len());
    if n > 0 {
        let m = (n - 1) as nat;
        let before = route_views(channels, m);
        let (name, c) = (channels[m as int].0@, channels[m as int].1);
        let kept = out.take(vs.len() as int);
        if has_routes(c) {
            let k = before.len() as int;
            assert(kept.drop_last() =~= out.take(k));
            lemma_routes_read(st, out, m, s, p, version, w);
            lemma_item_reads::<RouteEntryFrame>(out, layout, s, p, k);
            assert(kept.last() == out[k]);
            lemma_no_route_refusal(channels, channels.len(), w, m as int);
            lemma_role_found(st, w, m as int, layout);
            if route_names(before).contains(name) {
                lemma_route_names(channels, m, name);
                let i = choose|i: int| 0 <= i < m && (#[trigger] channels[i]).0@ == name;
                let cs = channel_entries(st, w);
                let e = crate::archive_write::channels_writing(w);
                lemma_all_kept(channels, channels.len(), e);
                assert(cs[i] == crate::archive_item::Stored::entry(&channels[i], e));
                assert(cs[m as int] == crate::archive_item::Stored::entry(&channels[m as int], e));
                assert(channel_readable(cs[m as int], cs.take(m as int), layout, w.codec));
                assert(channel_names(cs.take(m as int))[i] == name);
            }
            assert(channels[m as int].1 == c);
            lemma_route_entry(
                name,
                c,
                out[k],
                before,
                channels_kept(st, w),
                s,
                items_end(f, k as nat, s, p),
                items_end(f, (k + 1) as nat, s, p),
                version,
                w,
            );
        } else {
            lemma_routes_read(st, out, m, s, p, version, w);
        }
    }
}

/// The owner's record as it is kept, where there is one.
pub open spec fn kept_owner(st: &NodeState, w: Writer) -> Option<RecordView> {
    if st.routing is Some && st.owner.client_relay.aliases@.len() == 0 {
        None
    } else {
        match observation(st.owner.owner_clock, w.wall_ms, w.now) {
            Err(_) => None,
            Ok(captured_ms) => match live_record(st.owner, w.now, captured_ms) {
                Err(_) => None,
                Ok(live) => Some(limited_record(live, st.owner.owner_clock)),
            },
        }
    }
}

/// Whether every renewal of a record has the length of one.
pub open spec fn renewals_sized(record: RecordView, p: Protocol) -> bool {
    forall|k: Seq<u8>| #[trigger] record.renewals.dom().contains(k) ==> record.renewals[k].len() == p.lease_renew_len
}

/// The encoding of the transport identity as it is kept, where there is one.
pub open spec fn kept_tls(st: &NodeState, w: Writer) -> Option<Seq<u8>> {
    if st.sealed_tls_identity@.len() == 0 {
        None
    } else {
        match opened_tls(st.sealed_tls_identity@, *w.keys, *w.codec) {
            Ok(plain) => Some(plain),
            Err(_) => None,
        }
    }
}

/// The channels of a node as they are read.
pub open spec fn channels_kept(st: &NodeState, w: Writer) -> Seq<ArchivedChannelView> {
    channels_back(channel_entries(st, w), written_version(*st, w.replaced), w.codec)
}

/// What is read of a node's archive, given how its grants were sealed.
pub open spec fn restored(st: &NodeState, grants: Seq<SealedView>, w: Writer) -> ArchiveView {
    ArchiveView {
        version: written_version(*st, w.replaced),
        core: core_entry(st, w),
        channels: channels_kept(st, w),
        routes: route_views(st.channels.entries@, st.channels.entries@.len()),
        policy: policy_entry(st, grants, w),
        application_inbox: st.application_inbox.messages@,
        next_prep_id: st.next_prep_id,
        prepared: join_views(st.prepared.entries@),
        tls_identity: kept_tls(st, w),
        central_ownership: maybe_view(st.application_inbox.central_ownership),
        machine_owned: st.application_inbox.machine_owned,
        owner_aliases: kept_owner(st, w),
        routing_directory: bytes_view(st.routing),
        receipts: if credited(*st, w.replaced) {
            Some(st.gc2_receipts@)
        } else {
            None
        },
    }
}

/// Whether the end of an archive is such as readers take.
pub open spec fn end_readable(st: &NodeState, w: Writer) -> bool {
    &&& w.codec.routes.wf()
    &&& w.codec.private_cards.wf()
    &&& match kept_owner(st, w) {
        Some(record) => renewals_sized(record, *w.p),
        None => true,
    }
    &&& match st.routing {
        Some(plain) => views(w.codec.directories@).contains(plain@) && plain@.len() + 28 <= 0x4000,
        None => true,
    }
    &&& routes_short(st.channels.entries@, *w.codec)
    &&& route_views(st.channels.entries@, st.channels.entries@.len()).len() <= 1024
    &&& credited(*st, w.replaced) ==> views(w.codec.receipts@).contains(st.gc2_receipts@) && st.gc2_receipts@.len() <= w.p.receipts_max
    &&& !(st.application_inbox.machine_owned && st.application_inbox.central_ownership is Some)
}

/// The count and the items of a list that was read.
proof fn lemma_list_read<R: Framed>(vs: Seq<R::V>, maximum: nat, layout: Layout, s: Seq<u8>, p: int, q: int)
    requires
        parse(Shape::Many(maximum, Box::new(R::shape(layout))), s, p) == Some((Tree::Many(trees::<R>(vs, layout)), q)),
    ensures
        count_at(s, p, maximum) == Some((vs.len(), p + 4)),
        parse_all(R::shape(layout), vs.len(), s, p + 4) is Some,
        items(R::shape(layout), vs.len(), s, p + 4) == trees::<R>(vs, layout),
        items_end(R::shape(layout), vs.len(), s, p + 4) == q,
{
    let n = crate::bytes::be(s.subrange(p, p + 4));
    lemma_items(R::shape(layout), n, s, p + 4, 0);
    assert(items(R::shape(layout), n, s, p + 4) == trees::<R>(vs, layout));
    assert(trees::<R>(vs, layout).len() == vs.len());
}

/// What is sealed of the live record opens.
proof fn lemma_current_opens(
    record: RecordView,
    captured_ms: u64,
    routed: bool,
    keys: NodeKeys,
    codec: Codec,
    p: Protocol,
    sealed: Vec<u8>,
)
    requires
        seals_current(record, captured_ms, routed, keys, codec, p, Ok(sealed)),
        codec.private_cards.wf(),
        renewals_sized(record, p),
    ensures
        opened_record(sealed@, keys, codec, p) == Ok::<RecordView, Error>(record),
        sealed@.len() >= 28,
{
    reveal(seals_current);
    let target = spec_active_target(record.groups, record.groups.len())->0;
    let r: Result<Vec<u8>, Error> = Ok(sealed);
    assert(seals_record(record, target, keys, codec, p, r));
    opening_undoes_sealing(record, target, keys, codec, p, sealed);
}

proof fn lemma_owner_read(st: &NodeState, owner: Vec<u8>, w: Writer)
    requires
        seals_owner(st, w, Ok(owner)),
        end_readable(st, w),
    ensures
        owner_in(owner@, reader(w)) == Ok::<Option<RecordView>, Error>(kept_owner(st, w)),
        kept_owner(st, w) is None ==> st.routing is Some,
{
    if !(st.routing is Some && st.owner.client_relay.aliases@.len() == 0) {
        let captured_ms = observation(st.owner.owner_clock, w.wall_ms, w.now)->Ok_0;
        let live = live_record(st.owner, w.now, captured_ms)->Ok_0;
        let record = limited_record(live, st.owner.owner_clock);
        assert(kept_owner(st, w) == Some(record));
        lemma_current_opens(record, captured_ms, st.owner.routed, *w.keys, *w.codec, *w.p, owner);
    }
}

proof fn lemma_directory_read(st: &NodeState, directory: Vec<u8>, w: Writer)
    requires
        seals_directory(st, w, Ok(directory)),
        end_readable(st, w),
    ensures
        directory_in(directory@, reader(w)) == Ok::<Option<Seq<u8>>, Error>(bytes_view(st.routing)),
{
}

proof fn lemma_receipts_read(st: &NodeState, receipts: Vec<u8>, w: Writer)
    requires
        seals_receipts(st, w, Ok(receipts)),
        credited(*st, w.replaced),
        end_readable(st, w),
    ensures
        opened_receipts(receipts@, *w.keys, *w.codec, *w.p) == Ok::<Seq<u8>, Error>(st.gc2_receipts@),
{
}

/// Where the parts of a trailer lie.
proof fn lemma_trailer_parts(t: TrailerFrameView, layout: Layout, s: Seq<u8>, at: int, end: int) -> (q: (int, int, int, int))
    requires
        parse(TrailerFrame::shape(layout), s, at) == Some((TrailerFrame::tree(t, layout), end)),
    ensures
        field_at(s, at) == Some((t.machine, q.0)),
        field_at(s, q.0) == Some((t.owner, q.1)),
        field_at(s, q.1) == Some((t.directory, q.2)),
        parse(Shape::Many(1024, Box::new(RouteEntryFrame::shape(layout))), s, q.2) == Some(
            (Tree::Many(trees::<RouteEntryFrame>(t.routes, layout)), q.3),
        ),
        layout.version >= 21 ==> field_at(s, q.3) == Some((t.receipts, end)),
        layout.version < 21 ==> q.3 == end,
{
    broadcast use parse_then;

    let field = Shape::Field(4);
    let many = Shape::Many(1024, Box::new(RouteEntryFrame::shape(layout)));
    let q1 = match parse(field, s, at) {
        Some((_, q)) => q,
        None => 0,
    };
    let q2 = match parse(field, s, q1) {
        Some((_, q)) => q,
        None => 0,
    };
    let q3 = match parse(field, s, q2) {
        Some((_, q)) => q,
        None => 0,
    };
    let q4 = match parse(many, s, q3) {
        Some((_, q)) => q,
        None => 0,
    };
    reveal(crate::record::since);
    reveal(crate::record::where_present);
    (q1, q2, q3, q4)
}

/// The end of an archive reads as what was written of it.
proof fn lemma_end_read(
    st: &NodeState,
    a: ArchiveView,
    grants: Seq<SealedView>,
    machine: Vec<u8>,
    owner: Vec<u8>,
    directory: Vec<u8>,
    routes: Seq<RouteEntryView>,
    receipts: Vec<u8>,
    s: Seq<u8>,
    at: int,
    w: Writer,
)
    requires
        parse(TrailerFrame::shape(write_layout(st, w)), s, at) == Some(
            (
                TrailerFrame::tree(end_entry(machine@, owner@, directory@, routes, receipts@), write_layout(st, w)),
                s.len() as int,
            ),
        ),
        end_readable(st, w),
        channels_readable(channel_entries(st, w), write_layout(st, w), w.codec),
        seals_machine(st.application_inbox.machine_owned, *w.keys, *w.codec, Ok(machine)),
        seals_owner(st, w, Ok(owner)),
        seals_directory(st, w, Ok(directory)),
        routes_kept(st.channels.entries@, st.channels.entries@.len(), routes, w),
        routes_refusal(st.channels.entries@, st.channels.entries@.len(), w) is None,
        seals_receipts(st, w, Ok(receipts)),
        a == (ArchiveView {
            routes: Seq::empty(),
            machine_owned: false,
            owner_aliases: None,
            routing_directory: None,
            receipts: None,
            ..restored(st, grants, w)
        }),
        all_may_wait(ArchiveView { receipts: None, ..restored(st, grants, w) }, *w.codec),
    ensures
        trailer_stage(s, at, a, reader(w)) == Ok::<ArchiveView, Error>(restored(st, grants, w)),
{
    reveal(trailer_stage);
    let d = reader(w);
    let layout = write_layout(st, w);
    let version = layout.version;
    let end = end_entry(machine@, owner@, directory@, routes, receipts@);
    let (q1, q2, q3, q4) = lemma_trailer_parts(end, layout, s, at, s.len() as int);
    let n = st.channels.entries@.len();
    let vs = route_views(st.channels.entries@, n);
    let t = TrailerView {
        machine_owned: st.application_inbox.machine_owned,
        owner: kept_owner(st, w),
        directory: bytes_view(st.routing),
        routes: vs,
    };
    assert(trailer_at(s, at, a, d) == Ok::<(TrailerView, int), Error>((t, q4))) by {
        crate::sealed_parts::sealed_machine_opens(st.application_inbox.machine_owned, *w.keys, *w.codec, machine);
        lemma_owner_read(st, owner, w);
        lemma_directory_read(st, directory, w);
        lemma_list_read::<RouteEntryFrame>(routes, 1024, layout, s, q3, q4);
        lemma_kept_count(st.channels.entries@, n, routes, w);
        assert(routes.take(vs.len() as int) =~= routes);
        lemma_routes_read(st, routes, n, s, q3 + 4, version, w);
    }
    let b = with_trailer(a, t);
    assert(b == (ArchiveView { receipts: None, ..restored(st, grants, w) }));
    if version >= 21 {
        lemma_receipts_read(st, receipts, w);
    }
    assert(receipts_stage(s, q4, b, d) == Ok::<ArchiveView, Error>(restored(st, grants, w)));
}

/// As many route entries are kept as there are channels with routes.
proof fn lemma_kept_count(channels: Seq<(String, ChannelState)>, n: nat, out: Seq<RouteEntryView>, w: Writer)
    requires
        routes_kept(channels, n, out, w),
    ensures
        out.len() == route_views(channels, n).len(),
    decreases n,
{
    if n > 0 {
        if has_routes(channels[n - 1].1) {
            lemma_kept_count(channels, (n - 1) as nat, out.drop_last(), w);
        } else {
            lemma_kept_count(channels, (n - 1) as nat, out, w);
        }
    }
}

/// Whether what follows the policy is such as readers take.
pub open spec fn tail_readable(st: &NodeState, w: Writer) -> bool {
    &&& crate::sealed_parts::inbox_in_order(st.application_inbox.messages@, *w.codec, *w.p)
    &&& rendered::<crate::archive_frame::InboxFrame>(
        st.application_inbox.messages@,
        crate::sealed_parts::inbox_layout(w.p.application_inbox_limit),
    ).len() + 28 <= 0x40_0000
    &&& joins_readable(st.prepared.entries@, st.next_prep_id, w)
    &&& st.sealed_tls_identity@.len() > 0 ==> opened_tls(st.sealed_tls_identity@, *w.keys, *w.codec) is Ok
    &&& match st.application_inbox.central_ownership {
        Some(v) => crate::archive_frame::CentralOwnership::bounded(v@, crate::owner_record::bare())
            && rendered::<crate::archive_frame::CentralOwnership>(v@, crate::owner_record::bare()).len() + 29 <= 2048,
        None => true,
    }
}

/// What follows the policy reads as what was written of it.
proof fn lemma_tail_read(
    st: &NodeState,
    a: ArchiveView,
    inbox: Vec<u8>,
    joins: Seq<PreparedView>,
    central: Vec<u8>,
    s: Seq<u8>,
    at: int,
    end: int,
    w: Writer,
)
    requires
        parse(TailFrame::shape(write_layout(st, w)), s, at) == Some(
            (TailFrame::tree(tail_entry(st, inbox@, joins, central@), write_layout(st, w)), end),
        ),
        tail_readable(st, w),
        w.codec.routes.wf(),
        seals_inbox(st.application_inbox.messages@, *w.keys, *w.codec, *w.p, Ok(inbox)),
        joins_refusal(st.prepared.entries@, st.prepared.entries@.len(), w) is None,
        joins_kept(st.prepared.entries@, joins, w),
        seals_central(maybe_view(st.application_inbox.central_ownership), *w.keys, *w.codec, Ok(central)),
        a.version == write_layout(st, w).version,
        a.tls_identity is None,
    ensures
        inbox_stage(s, at, a, reader(w)) == trailer_stage(
            s,
            end,
            ArchiveView {
                application_inbox: st.application_inbox.messages@,
                next_prep_id: st.next_prep_id,
                prepared: join_views(st.prepared.entries@),
                tls_identity: kept_tls(st, w),
                central_ownership: maybe_view(st.application_inbox.central_ownership),
                ..a
            },
            reader(w),
        ),
{
    reveal(inbox_stage);
    broadcast use parse_then;

    let d = reader(w);
    let layout = write_layout(st, w);
    let field = Shape::Field(4);
    let number = Shape::Number(8);
    let many = Shape::Many(64, Box::new(PreparedFrame::shape(layout)));
    let q1 = match parse(field, s, at) {
        Some((_, q)) => q,
        None => 0,
    };
    let q2 = match parse(number, s, q1) {
        Some((_, q)) => q,
        None => 0,
    };
    let q3 = match parse(many, s, q2) {
        Some((_, q)) => q,
        None => 0,
    };
    let q4 = match parse(field, s, q3) {
        Some((_, q)) => q,
        None => 0,
    };
    assert(field_at(s, at) == Some((inbox@, q1)));
    assert(number_at(s, q1) == Some((st.next_prep_id, q2)));
    assert(parse(many, s, q2) == Some((Tree::Many(trees::<PreparedFrame>(joins, layout)), q3)));
    assert(field_at(s, q3) == Some((st.sealed_tls_identity@, q4)));
    assert(field_at(s, q4) == Some((central@, end)));
    crate::sealed_parts::sealed_inbox_opens(st.application_inbox.messages@, *w.keys, *w.codec, *w.p, inbox);
    lemma_list_read::<PreparedFrame>(joins, 64, layout, s, q2, q3);
    lemma_joins_read(st.prepared.entries@, joins, joins.len(), st.next_prep_id, s, q2 + 4, layout.version, w);
    assert(join_views(st.prepared.entries@).take(joins.len() as int) =~= join_views(st.prepared.entries@));
    crate::sealed_parts::sealed_central_opens(maybe_view(st.application_inbox.central_ownership), *w.keys, *w.codec, central);
    let a1 = ArchiveView { application_inbox: st.application_inbox.messages@, ..a };
    let a2 = ArchiveView { next_prep_id: st.next_prep_id, prepared: join_views(st.prepared.entries@), ..a1 };
    let a3 = ArchiveView { tls_identity: kept_tls(st, w), ..a2 };
    let a4 = ArchiveView { central_ownership: maybe_view(st.application_inbox.central_ownership), ..a3 };
    assert(inbox_stage(s, at, a, d) == prepared_stage(s, q1, a1, d));
    assert(prepared_stage(s, q1, a1, d) == tls_stage(s, q3, a2, d));
    assert(tls_stage(s, q3, a2, d) == central_stage(s, q4, a3, d));
    assert(central_stage(s, q4, a3, d) == trailer_stage(s, end, a4, d));
}

/// Whether the policy of a node is such as readers take.
pub open spec fn policy_readable(st: &NodeState, w: Writer) -> bool {
    let layout = write_layout(st, w);
    let policy = policy_entry(st, Seq::empty(), w);
    &&& policy.peers.len() <= 8192
    &&& policy.channels.len() <= layout.channel_max
    &&& st.forward_grants@.len() <= layout.forward_grants_max
    &&& policy_good(policy, channel_names(channel_entries(st, w)), Checks { version: layout.version, codec: w.codec })
}

/// Whether what a node holds is such as readers take.
pub open spec fn readable(st: &NodeState, w: Writer) -> bool {
    let layout = write_layout(st, w);
    &&& CoreFrame::plain(core_entry(st, w), layout)
    &&& CoreFrame::bounded(core_entry(st, w), layout)
    &&& core_good(core_entry(st, w), Checks { version: layout.version, codec: w.codec })
    &&& channels_readable(channel_entries(st, w), layout, w.codec)
    &&& policy_readable(st, w)
    &&& tail_readable(st, w)
    &&& end_readable(st, w)
    &&& all_may_wait(ArchiveView { receipts: None, ..restored(st, Seq::empty(), w) }, *w.codec)
}

/// What has been read once the policy is.
pub open spec fn front(st: &NodeState, policy: PolicyView, w: Writer) -> ArchiveView {
    ArchiveView {
        channels: channels_kept(st, w),
        policy,
        ..core_only(written_version(*st, w.replaced), core_entry(st, w))
    }
}

proof fn lemma_channels_stand(st: &NodeState, a: ArchiveView, s: Seq<u8>, at: int, w: Writer)
    requires
        a.version == write_layout(st, w).version,
        a.routes.len() == 0,
        channels_readable(channel_entries(st, w), write_layout(st, w), w.codec),
        size_error(channels_shape(write_layout(st, w)), channels_tree(channel_entries(st, w), write_layout(st, w))) is None,
        0 <= at,
        ({
            let r = render(channels_shape(write_layout(st, w)), channels_tree(channel_entries(st, w), write_layout(st, w)));
            at + r.len() <= s.len() && s.subrange(at, at + r.len()) == r
        }),
    ensures
        channel_stage(s, at, a, reader(w)) == policy_stage(
            s,
            at + render(channels_shape(write_layout(st, w)), channels_tree(channel_entries(st, w), write_layout(st, w))).len(),
            ArchiveView { channels: channels_kept(st, w), ..a },
            reader(w),
        ),
{
    let layout = write_layout(st, w);
    let cs = channel_entries(st, w);
    lemma_many_fits::<ArchivedChannel>(cs, layout.channel_max as nat, layout);
    parse_of_render(channels_shape(layout), channels_tree(cs, layout), s, at);
    let end = at + render(channels_shape(layout), channels_tree(cs, layout)).len();
    lemma_list_read::<ArchivedChannel>(cs, layout.channel_max as nat, layout, s, at, end);
    lemma_channels_read(cs, cs.len(), s, at + 4, reader(w), layout.version);
    assert(channels_kept(st, w).take(cs.len() as int) =~= channels_kept(st, w));
    assert(a.routes =~= Seq::<NamedRoutesView>::empty());
}

/// Where the parts of five that follow one another lie.
pub(crate) proof fn lemma_five(m: Seq<u8>, c: Seq<u8>, ch: Seq<u8>, po: Seq<u8>, rest: Seq<u8>)
    ensures
        ({
            let s = m + c + ch + po + rest;
            let q1 = m.len() as int + c.len();
            let q2 = q1 + ch.len();
            &&& s.len() == q2 + po.len() + rest.len()
            &&& s.subrange(0, m.len() as int) == m
            &&& s.subrange(m.len() as int, q1) == c
            &&& s.subrange(q1, q2) == ch
            &&& s.subrange(q2, q2 + po.len()) == po
        }),
{
    let s = m + c + ch + po + rest;
    let q1 = m.len() as int + c.len();
    let q2 = q1 + ch.len();
    assert(s.subrange(0, m.len() as int) =~= m);
    assert(s.subrange(m.len() as int, q1) =~= c);
    assert(s.subrange(q1, q2) =~= ch);
    assert(s.subrange(q2, q2 + po.len()) =~= po);
}

proof fn lemma_core_stands(core: CoreView, version: u8, s: Seq<u8>, d: Reader)
    requires
        version == 19 || version == 21,
        CoreFrame::plain(core, layout_of(version, *d.p)),
        CoreFrame::bounded(core, layout_of(version, *d.p)),
        oversize::<CoreFrame>(core, layout_of(version, *d.p)) is None,
        core_good(core, Checks { version, codec: d.codec }),
        s.len() <= max_archive(),
        s.len() >= 6 + rendered::<CoreFrame>(core, layout_of(version, *d.p)).len(),
        s.subrange(0, 6) == magic(version),
        s.subrange(6, 6int + rendered::<CoreFrame>(core, layout_of(version, *d.p)).len()) == rendered::<CoreFrame>(
            core,
            layout_of(version, *d.p),
        ),
    ensures
        decoded(s, d) == channel_stage(
            s,
            6int + rendered::<CoreFrame>(core, layout_of(version, *d.p)).len(),
            core_only(version, core),
            d,
        ),
{
    written_reads_back::<CoreFrame>(core, layout_of(version, *d.p), s, 6);
    assert forall|i: int| 0 <= i < 6 implies s[i] == magic(version)[i] by {
        assert(s.subrange(0, 6)[i] == s[i]);
    }
    assert(magic_version(s) == Some(version));
}

proof fn lemma_policy_stands(policy: PolicyView, a: ArchiveView, s: Seq<u8>, at: int, d: Reader)
    requires
        a.version >= 9,
        policy.peers.len() <= 8192,
        policy.channels.len() <= d.p.channel_max,
        policy.grants.len() <= d.p.forward_grants_max,
        policy_good(policy, channel_names(a.channels), Checks { version: a.version, codec: d.codec }),
        oversize::<PolicyFrame>(policy, layout_of(a.version, *d.p)) is None,
        0 <= at,
        at + rendered::<PolicyFrame>(policy, layout_of(a.version, *d.p)).len() <= s.len(),
        s.subrange(at, at + rendered::<PolicyFrame>(policy, layout_of(a.version, *d.p)).len()) == rendered::<PolicyFrame>(
            policy,
            layout_of(a.version, *d.p),
        ),
    ensures
        policy_stage(s, at, a, d) == inbox_stage(
            s,
            at + rendered::<PolicyFrame>(policy, layout_of(a.version, *d.p)).len(),
            ArchiveView { policy, ..a },
            d,
        ),
{
    let layout = layout_of(a.version, *d.p);
    assert(PolicyFrame::plain(policy, layout));
    assert(PolicyFrame::bounded(policy, layout));
    written_reads_back::<PolicyFrame>(policy, layout, s, at);
}

/// Which grants a policy lists does not matter to whether it is in order.
proof fn lemma_grants_aside(a: PolicyView, b: PolicyView, names: Seq<Seq<char>>, c: Checks)
    requires
        a.peers == b.peers,
        a.channels == b.channels,
        policy_good(a, names, c),
    ensures
        policy_good(b, names, c),
{
    reveal(policy_good);
}

/// The front of an archive reads as what was written of it.
proof fn lemma_front_read(st: &NodeState, grants: Seq<SealedView>, rest: Seq<u8>, w: Writer)
    requires
        CoreFrame::plain(core_entry(st, w), write_layout(st, w)),
        CoreFrame::bounded(core_entry(st, w), write_layout(st, w)),
        oversize::<CoreFrame>(core_entry(st, w), write_layout(st, w)) is None,
        core_good(core_entry(st, w), Checks { version: write_layout(st, w).version, codec: w.codec }),
        channels_readable(channel_entries(st, w), write_layout(st, w), w.codec),
        size_error(channels_shape(write_layout(st, w)), channels_tree(channel_entries(st, w), write_layout(st, w))) is None,
        policy_readable(st, w),
        grants.len() == st.forward_grants@.len(),
        oversize::<PolicyFrame>(policy_entry(st, grants, w), write_layout(st, w)) is None,
        (journals_bytes(st, policy_entry(st, grants, w), w) + rest).len() <= max_archive(),
    ensures
        ({
            let policy = policy_entry(st, grants, w);
            let done = journals_bytes(st, policy, w);
            decoded(done + rest, reader(w)) == inbox_stage(done + rest, done.len() as int, front(st, policy, w), reader(w))
        }),
{
    let d = reader(w);
    let layout = write_layout(st, w);
    let policy = policy_entry(st, grants, w);
    let core = core_entry(st, w);
    let cs = channel_entries(st, w);
    let m = magic(layout.version);
    let c = rendered::<CoreFrame>(core, layout);
    let ch = render(channels_shape(layout), channels_tree(cs, layout));
    let po = rendered::<PolicyFrame>(policy, layout);
    let s = m + c + ch + po + rest;
    lemma_five(m, c, ch, po, rest);
    let q1: int = 6int + c.len();
    let q2: int = q1 + ch.len();
    let a1 = core_only(layout.version, core);
    let a2 = ArchiveView { channels: channels_kept(st, w), ..a1 };
    lemma_names_back(cs, layout.version, w.codec);
    lemma_core_stands(core, layout.version, s, d);
    lemma_channels_stand(st, a1, s, q1, w);
    lemma_grants_aside(
        policy_entry(st, Seq::empty(), w),
        policy,
        channel_names(cs),
        Checks { version: layout.version, codec: w.codec },
    );
    lemma_policy_stands(policy, a2, s, q2, d);
}

/// What has been read once the end of the tail is.
spec fn before_end(st: &NodeState, grants: Seq<SealedView>, w: Writer) -> ArchiveView {
    ArchiveView {
        routes: Seq::empty(),
        machine_owned: false,
        owner_aliases: None,
        routing_directory: None,
        receipts: None,
        ..restored(st, grants, w)
    }
}

proof fn lemma_end_written(
    st: &NodeState,
    grants: Seq<SealedView>,
    done: Seq<u8>,
    machine: Vec<u8>,
    owner: Vec<u8>,
    w: Writer,
    bytes: Vec<u8>,
)
    requires
        writes_end(st, done, machine@, owner@, w, Ok(bytes)),
        seals_machine(st.application_inbox.machine_owned, *w.keys, *w.codec, Ok(machine)),
        seals_owner(st, w, Ok(owner)),
        end_readable(st, w),
        channels_readable(channel_entries(st, w), write_layout(st, w), w.codec),
        all_may_wait(ArchiveView { receipts: None, ..restored(st, grants, w) }, *w.codec),
    ensures
        bytes@.len() >= done.len(),
        bytes@.len() <= max_archive(),
        bytes@ == done + bytes@.subrange(done.len() as int, bytes@.len() as int),
        trailer_stage(bytes@, done.len() as int, before_end(st, grants, w), reader(w)) == Ok::<ArchiveView, Error>(
            restored(st, grants, w),
        ),
{
    let r: Result<Vec<u8>, Error> = Ok(bytes);
    let channels = st.channels.entries@;
    let layout = write_layout(st, w);
    let directory = choose|directory: Result<Vec<u8>, Error>| #[trigger]
        seals_directory(st, w, directory) && match directory {
            Err(e) => r == Err::<Vec<u8>, Error>(e),
            Ok(directory) => match routes_refusal(channels, channels.len(), w) {
                Some(e) => r == Err::<Vec<u8>, Error>(e),
                None => exists|routes: Seq<RouteEntryView>| #[trigger]
                    routes_kept(channels, channels.len(), routes, w) && writes_receipts(
                        st,
                        done,
                        machine@,
                        owner@,
                        directory@,
                        routes,
                        w,
                        r,
                    ),
            },
        };
    let directory = directory->Ok_0;
    let routes = choose|routes: Seq<RouteEntryView>| #[trigger]
        routes_kept(channels, channels.len(), routes, w) && writes_receipts(
            st,
            done,
            machine@,
            owner@,
            directory@,
            routes,
            w,
            r,
        );
    assert(writes_receipts(st, done, machine@, owner@, directory@, routes, w, r));
    let receipts = choose|receipts: Result<Vec<u8>, Error>| #[trigger]
        seals_receipts(st, w, receipts) && match receipts {
            Err(e) => r == Err::<Vec<u8>, Error>(e),
            Ok(receipts) => {
                let end = end_entry(machine@, owner@, directory@, routes, receipts@);
                match oversize::<TrailerFrame>(end, layout) {
                    Some(e) => r == Err::<Vec<u8>, Error>(e),
                    None => {
                        let bytes = done + rendered::<TrailerFrame>(end, layout);
                        if bytes.len() > max_archive() {
                            r == Err::<Vec<u8>, Error>(Error::ExportTooLarge)
                        } else {
                            r matches Ok(out) && out@ == bytes
                        }
                    },
                }
            },
        };
    let receipts = receipts->Ok_0;
    let end = end_entry(machine@, owner@, directory@, routes, receipts@);
    let s = bytes@;
    assert(s == done + rendered::<TrailerFrame>(end, layout));
    assert(s.subrange(done.len() as int, s.len() as int) =~= rendered::<TrailerFrame>(end, layout));
    lemma_kept_count(channels, channels.len(), routes, w);
    written_reads_back::<TrailerFrame>(end, layout, s, done.len() as int);
    lemma_end_read(
        st,
        before_end(st, grants, w),
        grants,
        machine,
        owner,
        directory,
        routes,
        receipts,
        s,
        done.len() as int,
        w,
    );
}

proof fn lemma_tail_written(st: &NodeState, a: ArchiveView, done: Seq<u8>, tail: Vec<u8>, rest: Seq<u8>, w: Writer)
    requires
        writes_tail(st, done, w, Ok(tail)),
        tail_readable(st, w),
        w.codec.routes.wf(),
        a.version == write_layout(st, w).version,
        a.tls_identity is None,
    ensures
        tail@.len() >= done.len(),
        tail@ == done + tail@.subrange(done.len() as int, tail@.len() as int),
        inbox_stage(tail@ + rest, done.len() as int, a, reader(w)) == trailer_stage(
            tail@ + rest,
            tail@.len() as int,
            ArchiveView {
                application_inbox: st.application_inbox.messages@,
                next_prep_id: st.next_prep_id,
                prepared: join_views(st.prepared.entries@),
                tls_identity: kept_tls(st, w),
                central_ownership: maybe_view(st.application_inbox.central_ownership),
                ..a
            },
            reader(w),
        ),
{
    let r: Result<Vec<u8>, Error> = Ok(tail);
    let layout = write_layout(st, w);
    let inbox = choose|inbox: Result<Vec<u8>, Error>| #[trigger]
        seals_inbox(st.application_inbox.messages@, *w.keys, *w.codec, *w.p, inbox) && match inbox {
            Err(e) => r == Err::<Vec<u8>, Error>(e),
            Ok(inbox) => writes_joins(st, done, inbox@, w, r),
        };
    let inbox = inbox->Ok_0;
    let joins = choose|joins: Seq<PreparedView>| #[trigger]
        joins_kept(st.prepared.entries@, joins, w) && writes_central(st, done, inbox@, joins, w, r);
    assert(writes_central(st, done, inbox@, joins, w, r));
    let central = choose|central: Result<Vec<u8>, Error>| #[trigger]
        seals_central(maybe_view(st.application_inbox.central_ownership), *w.keys, *w.codec, central) && match central {
            Err(e) => r == Err::<Vec<u8>, Error>(e),
            Ok(central) => {
                let t = tail_entry(st, inbox@, joins, central@);
                match oversize::<TailFrame>(t, layout) {
                    Some(e) => r == Err::<Vec<u8>, Error>(e),
                    None => r matches Ok(out) && out@ == done + rendered::<TailFrame>(t, layout),
                }
            },
        };
    let central = central->Ok_0;
    let t = tail_entry(st, inbox@, joins, central@);
    let s = tail@ + rest;
    assert(tail@ == done + rendered::<TailFrame>(t, layout));
    assert(tail@.subrange(done.len() as int, tail@.len() as int) =~= rendered::<TailFrame>(t, layout));
    assert(s.subrange(done.len() as int, tail@.len() as int) =~= rendered::<TailFrame>(t, layout));
    written_reads_back::<TailFrame>(t, layout, s, done.len() as int);
    lemma_tail_read(st, a, inbox, joins, central, s, done.len() as int, tail@.len() as int, w);
}

/// What the node's own archive is read as: every part that was written comes
/// back, the sealed grants as they were sealed.
pub proof fn archive_reads_back(st: &NodeState, w: Writer, bytes: Vec<u8>)
    requires
        encodes(st, w, Ok(bytes)),
        readable(st, w),
    ensures
        exists|grants: Seq<SealedView>| #[trigger]
            grants_kept(st.forward_grants@, grants, w) && decoded(bytes@, reader(w)) == Ok::<ArchiveView, Error>(
                restored(st, grants, w),
            ),
{
    let r: Result<Vec<u8>, Error> = Ok(bytes);
    let journals = choose|journals: Result<Vec<u8>, Error>| #[trigger]
        writes_journals(st, w, journals) && match journals {
            Err(e) => r == Err::<Vec<u8>, Error>(e),
            Ok(done) => encodes_tail(st, done@, w, r),
        };
    let done = journals->Ok_0;
    let grants = lemma_parts_written(st, done, bytes, w);
    assert(grants_kept(st.forward_grants@, grants, w));
}

/// The law once the journals are written, with the grants that they hold.
proof fn lemma_parts_written(st: &NodeState, done: Vec<u8>, bytes: Vec<u8>, w: Writer) -> (grants: Seq<SealedView>)
    requires
        writes_journals(st, w, Ok(done)),
        encodes_tail(st, done@, w, Ok(bytes)),
        readable(st, w),
    ensures
        grants_kept(st.forward_grants@, grants, w),
        decoded(bytes@, reader(w)) == Ok::<ArchiveView, Error>(restored(st, grants, w)),
{
    let r: Result<Vec<u8>, Error> = Ok(bytes);
    let layout = write_layout(st, w);
    let j: Result<Vec<u8>, Error> = Ok(done);
    assert(journals_refusal(st, w) is None);
    let grants = choose|grants: Seq<SealedView>| #[trigger]
        grants_kept(st.forward_grants@, grants, w) && {
            let policy = policy_entry(st, grants, w);
            match oversize::<PolicyFrame>(policy, write_layout(st, w)) {
                Some(e) => j == Err::<Vec<u8>, Error>(e),
                None => j matches Ok(done) && done@ == journals_bytes(st, policy, w),
            }
        };
    let tail = choose|tail: Result<Vec<u8>, Error>| #[trigger]
        writes_tail(st, done@, w, tail) && match tail {
            Err(e) => r == Err::<Vec<u8>, Error>(e),
            Ok(done) => encodes_machine(st, done@, w, r),
        };
    let tail = tail->Ok_0;
    let machine = choose|machine: Result<Vec<u8>, Error>| #[trigger]
        seals_machine(st.application_inbox.machine_owned, *w.keys, *w.codec, machine) && match machine {
            Err(e) => r == Err::<Vec<u8>, Error>(e),
            Ok(machine) => encodes_owner(st, tail@, machine@, w, r),
        };
    let machine = machine->Ok_0;
    let owner = choose|owner: Result<Vec<u8>, Error>| #[trigger]
        seals_owner(st, w, owner) && match owner {
            Err(e) => r == Err::<Vec<u8>, Error>(e),
            Ok(owner) => writes_end(st, tail@, machine@, owner@, w, r),
        };
    let owner = owner->Ok_0;
    let policy = policy_entry(st, grants, w);
    lemma_grants_wait(st, grants, w);
    lemma_end_written(st, grants, tail@, machine, owner, w, bytes);
    let rest = bytes@.subrange(tail@.len() as int, bytes@.len() as int);
    let a = front(st, policy, w);
    lemma_tail_written(st, a, done@, tail, rest, w);
    let more = tail@.subrange(done@.len() as int, tail@.len() as int) + rest;
    assert(done@ + more =~= bytes@);
    lemma_front_read(st, grants, more, w);
    grants
}

/// How grants were sealed does not matter to which messages may wait.
proof fn lemma_grants_wait(st: &NodeState, grants: Seq<SealedView>, w: Writer)
    requires
        all_may_wait(ArchiveView { receipts: None, ..restored(st, Seq::empty(), w) }, *w.codec),
    ensures
        all_may_wait(ArchiveView { receipts: None, ..restored(st, grants, w) }, *w.codec),
{
    let a = ArchiveView { receipts: None, ..restored(st, Seq::empty(), w) };
    let b = ArchiveView { receipts: None, ..restored(st, grants, w) };
    assert forall|i: int| 0 <= i < b.core.pending.len() implies may_wait(#[trigger] b.core.pending[i], b, *w.codec) by {
        assert(may_wait(a.core.pending[i], a, *w.codec));
    }
}

} // verus!
