//! Whatever of a node's own archive is read is what the node held.

use vstd::prelude::*;
use crate::archive::{central_stage, channel_at, channel_stage, channels_at, core_only, count_at, decoded, directory_in, field_at, inbox_stage, join_at, joins_at, layout_of, magic_version, max_archive, number_at, policy_stage, prepared_stage, tls_stage, trailer_at, trailer_stage, unified_trailer, ArchiveView, NamedRoutesView, PreparedJoinView, Reader, TrailerView};
use crate::archive_check::numbered;
use crate::archive_frame::{ArchivedChannel, ArchivedChannelView, ChannelBody, ChannelHead, CoreFrame, DeliveryFrame, PendingFrame, PolicyFrame, PreparedFrame, PreparedView, ProcessedFrame, RouteEntryFrame, RouteEntryView, SealedView, TailFrame, TailView, TrailerFrame, TrailerFrameView};
use crate::archive_item::{entries_of, Stored};
use crate::archive_law::{channels_back, channels_kept, front, kept_tls, lemma_five, reader};
use crate::archive_write::{channel_entries, channels_shape, channels_tree, core_entry, encodes, encodes_machine, encodes_owner, encodes_tail, end_entry, grants_kept, join_kept, joins_kept, journals_bytes, journals_refusal, magic, policy_entry, routes_kept, routes_refusal, seals_directory, seals_owner, seals_receipts, tail_entry, write_layout, writes_central, writes_end, writes_joins, writes_journals, writes_receipts, writes_tail, writing, written_version, Writer};
use crate::bytes::{be_bytes, lemma_be_bytes, lemma_be_limits};
use crate::error::Error;
use crate::grammar::{both, parse_of_render, render, render_all, then, Shape, Tree};
use crate::node_state::{NodeState, PreparedChannelJoin};
use crate::record::{all_plain, bytes_view, lemma_all_sizes, maybe_view, oversize, read_as_written, reads, render_then, rendered, since, size_error, size_error_all, size_then, trees, where_present, Framed, Layout};
use crate::sealed_parts::{opened_central, opened_inbox, seals_central, seals_inbox, seals_machine, sealed_machine_opens, what_opens_was_owned, what_opens_was_sealed};

verus! {

/// Entries are those of items that are kept.
proof fn lemma_entry_of<W: Copy, S: Stored<W>>(s: Seq<S>, n: nat, w: W, j: int) -> (i: int)
    requires
        n <= s.len(),
        0 <= j < entries_of(s, n, w).len(),
    ensures
        0 <= i < n,
        s[i].kept(w),
        entries_of(s, n, w)[j] == s[i].entry(w),
    decreases n,
{
    if j < entries_of(s, (n - 1) as nat, w).len() {
        lemma_entry_of(s, (n - 1) as nat, w, j)
    } else {
        n - 1
    }
}

/// What is written of the journals leaves nothing to stand-ins.
proof fn lemma_core_plain(st: &NodeState, w: Writer)
    ensures
        CoreFrame::plain(core_entry(st, w), write_layout(st, w)),
{
    let layout = write_layout(st, w);
    let e = writing(st, w);
    let core = core_entry(st, w);
    assert forall|j: int| 0 <= j < core.pending.len() implies PendingFrame::plain(#[trigger] core.pending[j], layout) by {
        let i = lemma_entry_of(st.pending_1to1.entries@, st.pending_1to1.entries@.len(), e, j);
    }
    assert forall|j: int| 0 <= j < core.acks.len() implies DeliveryFrame::plain(#[trigger] core.acks[j], layout) by {
        let i = lemma_entry_of(st.direct_ack_outbox@, st.direct_ack_outbox@.len(), e, j);
    }
    assert forall|j: int| 0 <= j < core.processed.len() implies ProcessedFrame::plain(#[trigger] core.processed[j], layout) by {
        let i = lemma_entry_of(st.processed_direct_order@, st.processed_direct_order@.len(), e, j);
    }
}

/// A part of a list of parts lies where the parts before it end.
proof fn lemma_item_lies(f: Shape, ts: Seq<Tree>, m: nat, n: nat, s: Seq<u8>, p: int)
    requires
        m < n,
        0 <= p,
        p + render_all(f, ts, n).len() <= s.len(),
        s.subrange(p, p + render_all(f, ts, n).len()) == render_all(f, ts, n),
    ensures
        ({
            let q = p + render_all(f, ts, m).len();
            let one = render(f, ts[m as int]);
            &&& q + one.len() <= s.len()
            &&& s.subrange(q, q + one.len()) == one
        }),
    decreases n,
{
    let all = render_all(f, ts, n);
    let front = render_all(f, ts, (n - 1) as nat);
    assert(all == front + render(f, ts[n - 1]));
    if m == n - 1 {
        let q = p + front.len();
        let one = render(f, ts[m as int]);
        assert(s.subrange(q, q + one.len()) =~= one) by {
            assert forall|i: int| 0 <= i < one.len() implies s.subrange(q, q + one.len())[i] == one[i] by {
                assert(s.subrange(p, p + all.len())[front.len() + i] == all[front.len() + i]);
            }
        }
    } else {
        assert(s.subrange(p, p + front.len()) =~= front) by {
            assert forall|i: int| 0 <= i < front.len() implies s.subrange(p, p + front.len())[i] == front[i] by {
                assert(s.subrange(p, p + all.len())[i] == all[i]);
            }
        }
        lemma_item_lies(f, ts, m, (n - 1) as nat, s, p);
    }
}

/// Two parts of a whole lie one after the other.
proof fn lemma_two(x: Seq<u8>, y: Seq<u8>, s: Seq<u8>, p: int)
    requires
        0 <= p,
        p + (x + y).len() <= s.len(),
        s.subrange(p, p + (x + y).len()) == x + y,
    ensures
        s.subrange(p, p + x.len()) == x,
        s.subrange(p + x.len(), p + x.len() + y.len()) == y,
{
    let w = s.subrange(p, p + (x + y).len());
    assert(s.subrange(p, p + x.len()) =~= x) by {
        assert forall|i: int| 0 <= i < x.len() implies s.subrange(p, p + x.len())[i] == x[i] by {
            assert(w[i] == (x + y)[i]);
        }
    }
    assert(s.subrange(p + x.len(), p + x.len() + y.len()) =~= y) by {
        assert forall|i: int| 0 <= i < y.len() implies s.subrange(p + x.len(), p + x.len() + y.len())[i] == y[i] by {
            assert(w[x.len() + i] == (x + y)[x.len() + i]);
        }
    }
}

/// Channels that are read are those that were written.
proof fn lemma_channels_as_written(cs: Seq<ArchivedChannelView>, n: nat, s: Seq<u8>, p: int, d: Reader, version: u8)
    requires
        version != 17,
        n <= cs.len(),
        all_plain::<ArchivedChannel>(cs, layout_of(version, *d.p)),
        size_error_all(
            ArchivedChannel::shape(layout_of(version, *d.p)),
            trees::<ArchivedChannel>(cs, layout_of(version, *d.p)),
            cs.len(),
        ) is None,
        0 <= p,
        ({
            let layout = layout_of(version, *d.p);
            let all = render_all(ArchivedChannel::shape(layout), trees::<ArchivedChannel>(cs, layout), cs.len());
            p + all.len() <= s.len() && s.subrange(p, p + all.len()) == all
        }),
        channels_at(s, p, n, version, d) is Ok,
    ensures
        channels_at(s, p, n, version, d) == Ok::<(Seq<ArchivedChannelView>, Seq<NamedRoutesView>, int), Error>(
            (
                channels_back(cs, version, d.codec).take(n as int),
                Seq::empty(),
                p + render_all(
                    ArchivedChannel::shape(layout_of(version, *d.p)),
                    trees::<ArchivedChannel>(cs, layout_of(version, *d.p)),
                    n,
                ).len(),
            ),
        ),
    decreases n,
{
    let layout = layout_of(version, *d.p);
    let f = ArchivedChannel::shape(layout);
    let ts = trees::<ArchivedChannel>(cs, layout);
    let back = channels_back(cs, version, d.codec);
    if n == 0 {
        assert(back.take(0) =~= Seq::<ArchivedChannelView>::empty());
    } else {
        let m = (n - 1) as nat;
        lemma_channels_as_written(cs, m, s, p, d, version);
        let c = cs[m as int];
        let q = p + render_all(f, ts, m).len();
        lemma_item_lies(f, ts, m, cs.len(), s, p);
        lemma_all_sizes(f, ts, cs.len());
        assert(ts[m as int] == ArchivedChannel::tree(c, layout));
        let head = rendered::<ChannelHead>(c.head, layout);
        let body = rendered::<ChannelBody>(c.body, layout);
        assert(render(f, ts[m as int]) == head + body) by {
            broadcast use render_then;

        }
        assert(oversize::<ChannelHead>(c.head, layout) is None && oversize::<ChannelBody>(c.body, layout) is None) by {
            broadcast use size_then;

            assert(size_error(f, ts[m as int]) is None);
        }
        lemma_two(head, body, s, q);
        assert(channel_at(s, q, back.take(m as int), version, d) == Ok::<
            (ArchivedChannelView, Option<NamedRoutesView>, int),
            Error,
        >((back[m as int], None, q + head.len() + body.len()))) by {
            reveal(channel_at);
            assert(reads::<ChannelHead>(layout, s, q) is Some);
            read_as_written::<ChannelHead>(c.head, layout, s, q);
            assert(reads::<ChannelBody>(layout, s, q + head.len()) is Some);
            read_as_written::<ChannelBody>(c.body, layout, s, q + head.len());
        }
        assert(back.take(m as int).push(back[m as int]) =~= back.take(n as int));
        assert(render_all(f, ts, n) == render_all(f, ts, m) + (head + body));
    }
}

proof fn lemma_channels_plain(st: &NodeState, w: Writer)
    ensures
        all_plain::<ArchivedChannel>(channel_entries(st, w), write_layout(st, w)),
{
}

/// The front of an archive that is read is the one that was written.
proof fn lemma_front_as_written(st: &NodeState, grants: Seq<SealedView>, rest: Seq<u8>, w: Writer)
    requires
        journals_refusal(st, w) is None,
        oversize::<PolicyFrame>(policy_entry(st, grants, w), write_layout(st, w)) is None,
        decoded(journals_bytes(st, policy_entry(st, grants, w), w) + rest, reader(w)) is Ok,
    ensures
        ({
            let policy = policy_entry(st, grants, w);
            let done = journals_bytes(st, policy, w);
            decoded(done + rest, reader(w)) == inbox_stage(done + rest, done.len() as int, front(st, policy, w), reader(w))
        }),
{
    let d = reader(w);
    let layout = write_layout(st, w);
    let version = layout.version;
    let policy = policy_entry(st, grants, w);
    let core = core_entry(st, w);
    let cs = channel_entries(st, w);
    let m = magic(version);
    let c = rendered::<CoreFrame>(core, layout);
    let ch = render(channels_shape(layout), channels_tree(cs, layout));
    let po = rendered::<PolicyFrame>(policy, layout);
    let s = m + c + ch + po + rest;
    lemma_five(m, c, ch, po, rest);
    let q1: int = 6int + c.len();
    let q2: int = q1 + ch.len();
    assert forall|i: int| 0 <= i < 6 implies s[i] == m[i] by {
        assert(s.subrange(0, 6)[i] == s[i]);
    }
    assert(magic_version(s) == Some(version));
    lemma_core_plain(st, w);
    assert(reads::<CoreFrame>(layout, s, 6) is Some);
    read_as_written::<CoreFrame>(core, layout, s, 6);
    assert(numbered(core, version) == core);
    let a1 = core_only(version, core);
    assert(decoded(s, d) == channel_stage(s, q1, a1, d));
    let f = ArchivedChannel::shape(layout);
    let ts = trees::<ArchivedChannel>(cs, layout);
    let count = be_bytes(cs.len(), 4);
    let items = render_all(f, ts, cs.len());
    assert(ch == count + items);
    lemma_be_limits();
    lemma_be_bytes(cs.len(), 4);
    lemma_two(count, items, s, q1);
    let number = Shape::Number(4);
    let told = Tree::Number(cs.len());
    assert(render(number, told) == count);
    parse_of_render(number, told, s, q1);
    lemma_channels_plain(st, w);
    lemma_channels_as_written(cs, cs.len(), s, q1 + 4, d, version);
    assert(channels_kept(st, w).take(cs.len() as int) =~= channels_kept(st, w));
    let a2 = ArchiveView { channels: channels_kept(st, w), ..a1 };
    assert(a1.routes =~= Seq::<NamedRoutesView>::empty());
    assert(channel_stage(s, q1, a1, d) == policy_stage(s, q2, a2, d));
    assert(PolicyFrame::plain(policy, layout));
    assert(reads::<PolicyFrame>(layout, s, q2) is Some);
    read_as_written::<PolicyFrame>(policy, layout, s, q2);
}

/// Joins that are read are those that were written, each under its number.
proof fn lemma_joins_as_written(joins: Seq<PreparedView>, n: nat, next: u64, s: Seq<u8>, p: int, version: u8, d: Reader)
    requires
        n <= joins.len(),
        size_error_all(
            PreparedFrame::shape(layout_of(version, *d.p)),
            trees::<PreparedFrame>(joins, layout_of(version, *d.p)),
            joins.len(),
        ) is None,
        0 <= p,
        ({
            let layout = layout_of(version, *d.p);
            let all = render_all(PreparedFrame::shape(layout), trees::<PreparedFrame>(joins, layout), joins.len());
            p + all.len() <= s.len() && s.subrange(p, p + all.len()) == all
        }),
        joins_at(s, p, n, next, version, d) is Ok,
    ensures
        ({
            let layout = layout_of(version, *d.p);
            let (out, end) = joins_at(s, p, n, next, version, d)->Ok_0;
            &&& end == p + render_all(PreparedFrame::shape(layout), trees::<PreparedFrame>(joins, layout), n).len()
            &&& out.len() == n
            &&& forall|i: int| 0 <= i < n ==> join_of(#[trigger] out[i], joins[i].id, joins[i].display, joins[i].mls)
        }),
    decreases n,
{
    if n > 0 {
        let m = (n - 1) as nat;
        let layout = layout_of(version, *d.p);
        let f = PreparedFrame::shape(layout);
        let ts = trees::<PreparedFrame>(joins, layout);
        lemma_joins_as_written(joins, m, next, s, p, version, d);
        let q = p + render_all(f, ts, m).len();
        lemma_item_lies(f, ts, m, joins.len(), s, p);
        lemma_all_sizes(f, ts, joins.len());
        assert(ts[m as int] == PreparedFrame::tree(joins[m as int], layout));
        reveal(join_at);
        assert(reads::<PreparedFrame>(layout, s, q) is Some);
        read_as_written::<PreparedFrame>(joins[m as int], layout, s, q);
        assert(render_all(f, ts, n) == render_all(f, ts, m) + rendered::<PreparedFrame>(joins[m as int], layout));
    }
}

/// Whether a prepared join has a number, a display name and a key package.
pub open spec fn join_of(join: PreparedJoinView, id: u64, display: Seq<char>, mls: Seq<u8>) -> bool {
    join.id == id && join.display == display && join.mls == mls
}

/// Whether the prepared joins of a node are there in order.
pub open spec fn joins_of(out: Seq<PreparedJoinView>, joins: Seq<(u64, PreparedChannelJoin)>) -> bool {
    &&& out.len() == joins.len()
    &&& forall|i: int| 0 <= i < joins.len() ==> join_of(#[trigger] out[i], joins[i].0, joins[i].1.display@, joins[i].1.mls@)
}

/// Where the parts of the tail lie: its fields and numbers, and how long its list of
/// joins is.
proof fn lemma_tail_lies(t: TailView, layout: Layout, s: Seq<u8>, at: int) -> (q: (int, int))
    requires
        oversize::<TailFrame>(t, layout) is None,
        0 <= at,
        ({
            let all = rendered::<TailFrame>(t, layout);
            at + all.len() <= s.len() && s.subrange(at, at + all.len()) == all
        }),
    ensures
        at <= q.0,
        field_at(s, at) == Some((t.inbox, q.0)),
        number_at(s, q.0) == Some((t.next_prep_id, q.0 + 8)),
        count_at(s, q.0 + 8, 64) is Some ==> count_at(s, q.0 + 8, 64) == Some((t.prepared.len(), q.0 + 12)),
        ({
            let f = PreparedFrame::shape(layout);
            let ts = trees::<PreparedFrame>(t.prepared, layout);
            let all = render_all(f, ts, ts.len());
            let end = q.0 + 12 + all.len();
            &&& size_error_all(f, ts, ts.len()) is None
            &&& end <= s.len()
            &&& s.subrange(q.0 + 12, end) == all
            &&& field_at(s, end) == Some((t.tls_identity, q.1))
            &&& field_at(s, q.1) == Some((t.central, at + rendered::<TailFrame>(t, layout).len()))
        }),
{
    let field = Shape::Field(4);
    let number = Shape::Number(8);
    let many = Shape::Many(64, Box::new(PreparedFrame::shape(layout)));
    let ts = trees::<PreparedFrame>(t.prepared, layout);
    let (b1, b2, b3, b4, b5) = (
        Tree::Bytes(t.inbox),
        Tree::Number(t.next_prep_id as nat),
        Tree::Many(ts),
        Tree::Bytes(t.tls_identity),
        Tree::Bytes(t.central),
    );
    let (r1, r2, r3, r4, r5) = (render(field, b1), render(number, b2), render(many, b3), render(field, b4), render(field, b5));
    assert(rendered::<TailFrame>(t, layout) == r1 + (r2 + (r3 + (r4 + r5)))) by {
        broadcast use render_then;

        assert(render(then(field, field), both(b4, b5)) == r4 + r5);
        assert(render(then(many, then(field, field)), both(b3, both(b4, b5))) == r3 + (r4 + r5));
        assert(render(then(number, then(many, then(field, field))), both(b2, both(b3, both(b4, b5)))) == r2 + (r3 + (r4 + r5)));
    }
    assert(size_error(field, b1) is None && size_error(many, b3) is None && size_error(field, b4) is None && size_error(
        field,
        b5,
    ) is None) by {
        broadcast use size_then;

        assert(size_error(then(many, then(field, field)), both(b3, both(b4, b5))) is None);
        assert(size_error(then(field, field), both(b4, b5)) is None);
    }
    lemma_be_limits();
    lemma_be_bytes(t.next_prep_id as nat, 8);
    lemma_be_bytes(ts.len(), 4);
    lemma_two(r1, r2 + (r3 + (r4 + r5)), s, at);
    parse_of_render(field, b1, s, at);
    let q1: int = at + r1.len();
    lemma_two(r2, r3 + (r4 + r5), s, q1);
    parse_of_render(number, b2, s, q1);
    let q2: int = q1 + 8;
    lemma_two(r3, r4 + r5, s, q2);
    let count = be_bytes(ts.len(), 4);
    let all = render_all(PreparedFrame::shape(layout), ts, ts.len());
    assert(r3 == count + all);
    lemma_two(count, all, s, q2);
    let q3: int = q2 + r3.len();
    lemma_two(r4, r5, s, q3);
    parse_of_render(field, b4, s, q3);
    let q4: int = q3 + r4.len();
    parse_of_render(field, b5, s, q4);
    assert(ts.len() == t.prepared.len());
    (q1, q4)
}

/// Where the first fields of the end lie.
proof fn lemma_end_lies(t: TrailerFrameView, layout: Layout, s: Seq<u8>, at: int) -> (q: (int, int, int))
    requires
        oversize::<TrailerFrame>(t, layout) is None,
        0 <= at,
        ({
            let all = rendered::<TrailerFrame>(t, layout);
            at + all.len() <= s.len() && s.subrange(at, at + all.len()) == all
        }),
    ensures
        field_at(s, at) == Some((t.machine, q.0)),
        field_at(s, q.0) == Some((t.owner, q.1)),
        field_at(s, q.1) == Some((t.directory, q.2)),
{
    let field = Shape::Field(4);
    let rest_shape = then(
        Shape::Many(1024, Box::new(RouteEntryFrame::shape(layout))),
        since(layout.version >= 21, field),
    );
    let rest_tree = both(
        Tree::Many(trees::<RouteEntryFrame>(t.routes, layout)),
        where_present(layout.version >= 21, Tree::Bytes(t.receipts)),
    );
    let (b1, b2, b3) = (Tree::Bytes(t.machine), Tree::Bytes(t.owner), Tree::Bytes(t.directory));
    let (r1, r2, r3, rest) = (render(field, b1), render(field, b2), render(field, b3), render(rest_shape, rest_tree));
    assert(rendered::<TrailerFrame>(t, layout) == r1 + (r2 + (r3 + rest))) by {
        broadcast use render_then;

        assert(render(then(field, rest_shape), both(b3, rest_tree)) == r3 + rest);
        assert(render(then(field, then(field, rest_shape)), both(b2, both(b3, rest_tree))) == r2 + (r3 + rest));
    }
    assert(size_error(field, b1) is None && size_error(field, b2) is None && size_error(field, b3) is None) by {
        broadcast use size_then;

        assert(size_error(then(field, rest_shape), both(b3, rest_tree)) is None);
    }
    lemma_be_limits();
    lemma_two(r1, r2 + (r3 + rest), s, at);
    parse_of_render(field, b1, s, at);
    let q1: int = at + r1.len();
    lemma_two(r2, r3 + rest, s, q1);
    parse_of_render(field, b2, s, q1);
    let q2: int = q1 + r2.len();
    lemma_two(r3, rest, s, q2);
    parse_of_render(field, b3, s, q2);
    (q1, q2, q2 + r3.len())
}

/// Whether one archive says what another does but for what the end of it adds.
spec fn keeps(a: ArchiveView, b: ArchiveView) -> bool {
    b == (ArchiveView {
        machine_owned: b.machine_owned,
        owner_aliases: b.owner_aliases,
        routing_directory: b.routing_directory,
        routes: b.routes,
        receipts: b.receipts,
        ..a
    })
}

/// What the end says of the machine and of routing is what was written.
proof fn lemma_end_as_written(
    st: &NodeState,
    a: ArchiveView,
    machine: Vec<u8>,
    directory: Vec<u8>,
    t: TrailerFrameView,
    s: Seq<u8>,
    at: int,
    w: Writer,
)
    requires
        a.version >= 18,
        t.machine == machine@,
        t.directory == directory@,
        seals_machine(st.application_inbox.machine_owned, *w.keys, *w.codec, Ok(machine)),
        seals_directory(st, w, Ok(directory)),
        oversize::<TrailerFrame>(t, write_layout(st, w)) is None,
        0 <= at,
        ({
            let all = rendered::<TrailerFrame>(t, write_layout(st, w));
            at + all.len() <= s.len() && s.subrange(at, at + all.len()) == all
        }),
        trailer_stage(s, at, a, reader(w)) is Ok,
    ensures
        ({
            let b = trailer_stage(s, at, a, reader(w))->Ok_0;
            &&& keeps(a, b)
            &&& b.machine_owned == st.application_inbox.machine_owned
            &&& b.routing_directory == bytes_view(st.routing)
        }),
{
    reveal(trailer_stage);
    let d = reader(w);
    let q = lemma_end_lies(t, write_layout(st, w), s, at);
    sealed_machine_opens(st.application_inbox.machine_owned, *w.keys, *w.codec, machine);
    let (b, end) = trailer_at(s, at, a, d)->Ok_0;
    assert(unified_trailer(s, at, a.channels, a.version, d) == Ok::<(TrailerView, int), Error>((b, end)));
    assert(b.machine_owned == st.application_inbox.machine_owned);
    assert(directory_in(directory@, d) == Ok::<Option<Seq<u8>>, Error>(b.directory));
    assert(b.directory == bytes_view(st.routing));
}

/// What follows the policy, as far as it is read, is what was written.
proof fn lemma_tail_as_written(
    st: &NodeState,
    a: ArchiveView,
    inbox: Vec<u8>,
    central: Vec<u8>,
    joins: Seq<PreparedView>,
    s: Seq<u8>,
    at: int,
    w: Writer,
) -> (b: ArchiveView)
    requires
        seals_inbox(st.application_inbox.messages@, *w.keys, *w.codec, *w.p, Ok(inbox)),
        joins_kept(st.prepared.entries@, joins, w),
        seals_central(maybe_view(st.application_inbox.central_ownership), *w.keys, *w.codec, Ok(central)),
        oversize::<TailFrame>(tail_entry(st, inbox@, joins, central@), write_layout(st, w)) is None,
        a.version == write_layout(st, w).version,
        a.tls_identity is None,
        0 <= at,
        ({
            let all = rendered::<TailFrame>(tail_entry(st, inbox@, joins, central@), write_layout(st, w));
            at + all.len() <= s.len() && s.subrange(at, at + all.len()) == all
        }),
        inbox_stage(s, at, a, reader(w)) is Ok,
    ensures
        inbox_stage(s, at, a, reader(w)) == trailer_stage(
            s,
            at + rendered::<TailFrame>(tail_entry(st, inbox@, joins, central@), write_layout(st, w)).len(),
            b,
            reader(w),
        ),
        joins_of(b.prepared, st.prepared.entries@),
        b == (ArchiveView {
            application_inbox: st.application_inbox.messages@,
            next_prep_id: st.next_prep_id,
            prepared: b.prepared,
            tls_identity: kept_tls(st, w),
            central_ownership: maybe_view(st.application_inbox.central_ownership),
            ..a
        }),
{
    reveal(inbox_stage);
    let d = reader(w);
    let layout = write_layout(st, w);
    let t = tail_entry(st, inbox@, joins, central@);
    let (q1, q5) = lemma_tail_lies(t, layout, s, at);
    let ts = trees::<PreparedFrame>(joins, layout);
    let q4: int = q1 + 12 + render_all(PreparedFrame::shape(layout), ts, ts.len()).len();
    let end = at + rendered::<TailFrame>(t, layout).len();
    assert(opened_inbox(inbox@, *w.keys, *w.codec, *w.p) is Ok);
    what_opens_was_sealed(st.application_inbox.messages@, *w.keys, *w.codec, *w.p, inbox);
    let a1 = ArchiveView { application_inbox: st.application_inbox.messages@, ..a };
    assert(inbox_stage(s, at, a, d) == prepared_stage(s, q1, a1, d));
    assert(joins_at(s, q1 + 12, joins.len(), st.next_prep_id, a.version, d) is Ok);
    lemma_joins_as_written(joins, joins.len(), st.next_prep_id, s, q1 + 12, a.version, d);
    let (prepared, _) = joins_at(s, q1 + 12, joins.len(), st.next_prep_id, a.version, d)->Ok_0;
    assert(joins_of(prepared, st.prepared.entries@)) by {
        assert forall|i: int| 0 <= i < joins.len() implies join_of(
            #[trigger] prepared[i],
            st.prepared.entries@[i].0,
            st.prepared.entries@[i].1.display@,
            st.prepared.entries@[i].1.mls@,
        ) by {
            assert(join_kept(st.prepared.entries@[i].0, st.prepared.entries@[i].1, joins[i], w));
        }
    }
    let a2 = ArchiveView { next_prep_id: st.next_prep_id, prepared, ..a1 };
    assert(prepared_stage(s, q1, a1, d) == tls_stage(s, q4, a2, d));
    let a3 = ArchiveView { tls_identity: kept_tls(st, w), ..a2 };
    assert(tls_stage(s, q4, a2, d) == central_stage(s, q5, a3, d));
    assert(opened_central(central@, *w.keys, *w.codec) is Ok);
    what_opens_was_owned(maybe_view(st.application_inbox.central_ownership), *w.keys, *w.codec, central);
    let a4 = ArchiveView { central_ownership: maybe_view(st.application_inbox.central_ownership), ..a3 };
    assert(central_stage(s, q5, a3, d) == trailer_stage(s, end, a4, d));
    a4
}

/// The tail of an archive that was written follows what stands before it.
proof fn lemma_tail_follows(st: &NodeState, done: Seq<u8>, w: Writer, tail: Vec<u8>) -> (r: (Vec<u8>, Seq<PreparedView>, Vec<u8>))
    requires
        writes_tail(st, done, w, Ok(tail)),
    ensures
        seals_inbox(st.application_inbox.messages@, *w.keys, *w.codec, *w.p, Ok(r.0)),
        joins_kept(st.prepared.entries@, r.1, w),
        seals_central(maybe_view(st.application_inbox.central_ownership), *w.keys, *w.codec, Ok(r.2)),
        oversize::<TailFrame>(tail_entry(st, r.0@, r.1, r.2@), write_layout(st, w)) is None,
        tail@ == done + rendered::<TailFrame>(tail_entry(st, r.0@, r.1, r.2@), write_layout(st, w)),
{
    let t: Result<Vec<u8>, Error> = Ok(tail);
    let inbox = choose|inbox: Result<Vec<u8>, Error>| #[trigger]
        seals_inbox(st.application_inbox.messages@, *w.keys, *w.codec, *w.p, inbox) && match inbox {
            Err(e) => t == Err::<Vec<u8>, Error>(e),
            Ok(inbox) => writes_joins(st, done, inbox@, w, t),
        };
    let inbox = inbox->Ok_0;
    let joins = choose|joins: Seq<PreparedView>| #[trigger]
        joins_kept(st.prepared.entries@, joins, w) && writes_central(st, done, inbox@, joins, w, t);
    assert(writes_central(st, done, inbox@, joins, w, t));
    let central = choose|central: Result<Vec<u8>, Error>| #[trigger]
        seals_central(maybe_view(st.application_inbox.central_ownership), *w.keys, *w.codec, central) && match central {
            Err(e) => t == Err::<Vec<u8>, Error>(e),
            Ok(central) => {
                let entry = tail_entry(st, inbox@, joins, central@);
                match oversize::<TailFrame>(entry, write_layout(st, w)) {
                    Some(e) => t == Err::<Vec<u8>, Error>(e),
                    None => t matches Ok(out) && out@ == done + rendered::<TailFrame>(entry, write_layout(st, w)),
                }
            },
        };
    let central = central->Ok_0;
    (inbox, joins, central)
}

/// The end of an archive that was written follows what stands before it.
proof fn lemma_end_follows(st: &NodeState, tail: Seq<u8>, w: Writer, bytes: Vec<u8>) -> (r: (Vec<u8>, Vec<u8>, TrailerFrameView))
    requires
        encodes_machine(st, tail, w, Ok(bytes)),
    ensures
        seals_machine(st.application_inbox.machine_owned, *w.keys, *w.codec, Ok(r.0)),
        seals_directory(st, w, Ok(r.1)),
        r.2.machine == r.0@,
        r.2.directory == r.1@,
        oversize::<TrailerFrame>(r.2, write_layout(st, w)) is None,
        bytes@ == tail + rendered::<TrailerFrame>(r.2, write_layout(st, w)),
{
    let r: Result<Vec<u8>, Error> = Ok(bytes);
    let channels = st.channels.entries@;
    let layout = write_layout(st, w);
    let machine = choose|machine: Result<Vec<u8>, Error>| #[trigger]
        seals_machine(st.application_inbox.machine_owned, *w.keys, *w.codec, machine) && match machine {
            Err(e) => r == Err::<Vec<u8>, Error>(e),
            Ok(machine) => encodes_owner(st, tail, machine@, w, r),
        };
    let machine = machine->Ok_0;
    let owner = choose|owner: Result<Vec<u8>, Error>| #[trigger]
        seals_owner(st, w, owner) && match owner {
            Err(e) => r == Err::<Vec<u8>, Error>(e),
            Ok(owner) => writes_end(st, tail, machine@, owner@, w, r),
        };
    let owner = owner->Ok_0;
    let directory = choose|directory: Result<Vec<u8>, Error>| #[trigger]
        seals_directory(st, w, directory) && match directory {
            Err(e) => r == Err::<Vec<u8>, Error>(e),
            Ok(directory) => match routes_refusal(channels, channels.len(), w) {
                Some(e) => r == Err::<Vec<u8>, Error>(e),
                None => exists|routes: Seq<RouteEntryView>| #[trigger]
                    routes_kept(channels, channels.len(), routes, w) && writes_receipts(
                        st,
                        tail,
                        machine@,
                        owner@,
                        directory@,
                        routes,
                        w,
                        r,
                    ),
            },
        };
    let directory = directory->Ok_0;
    let routes = choose|routes: Seq<RouteEntryView>| #[trigger]
        routes_kept(channels, channels.len(), routes, w) && writes_receipts(
            st,
            tail,
            machine@,
            owner@,
            directory@,
            routes,
            w,
            r,
        );
    assert(writes_receipts(st, tail, machine@, owner@, directory@, routes, w, r));
    let receipts = choose|receipts: Result<Vec<u8>, Error>| #[trigger]
        seals_receipts(st, w, receipts) && match receipts {
            Err(e) => r == Err::<Vec<u8>, Error>(e),
            Ok(receipts) => {
                let end = end_entry(machine@, owner@, directory@, routes, receipts@);
                match oversize::<TrailerFrame>(end, layout) {
                    Some(e) => r == Err::<Vec<u8>, Error>(e),
                    None => {
                        let bytes = tail + rendered::<TrailerFrame>(end, layout);
                        if bytes.len() > max_archive() {
                            r == Err::<Vec<u8>, Error>(Error::ExportTooLarge)
                        } else {
                            r matches Ok(out) && out@ == bytes
                        }
                    },
                }
            },
        };
    let receipts = receipts->Ok_0;
    let end = end_entry(machine@, owner@, directory@, routes, receipts@);
    (machine, directory, end)
}

/// Whatever of a node's own archive is read is what the node held: where the reader
/// takes the archive at all, it gives back the counters, every journal in order, each
/// channel with its directory held to its role, the presence policy, the inbox, the
/// prepared joins under their numbers, the server identity, who owns what, and the
/// routing directory. A waiting message comes back exactly where it is not volatile,
/// with its cells and without a relay.
pub proof fn what_reads_was_written(st: &NodeState, w: Writer, bytes: Vec<u8>, a: ArchiveView)
    requires
        encodes(st, w, Ok(bytes)),
        decoded(bytes@, reader(w)) == Ok::<ArchiveView, Error>(a),
    ensures
        a.version == written_version(*st, w.replaced),
        a.core == core_entry(st, w),
        a.core.head.next_direct_sequence == st.next_direct_sequence,
        a.core.head.local_contact_generation == st.local_contact_generation,
        forall|j: int| 0 <= j < a.core.pending.len() ==> (#[trigger] a.core.pending[j]).delivery.relay.len() == 0,
        a.channels == channels_kept(st, w),
        a.policy == policy_entry(st, a.policy.grants, w),
        grants_kept(st.forward_grants@, a.policy.grants, w),
        a.application_inbox == st.application_inbox.messages@,
        a.next_prep_id == st.next_prep_id,
        joins_of(a.prepared, st.prepared.entries@),
        a.tls_identity == kept_tls(st, w),
        a.central_ownership == maybe_view(st.application_inbox.central_ownership),
        a.machine_owned == st.application_inbox.machine_owned,
        a.routing_directory == bytes_view(st.routing),
{
    let r: Result<Vec<u8>, Error> = Ok(bytes);
    let journals = choose|journals: Result<Vec<u8>, Error>| #[trigger]
        writes_journals(st, w, journals) && match journals {
            Err(e) => r == Err::<Vec<u8>, Error>(e),
            Ok(done) => encodes_tail(st, done@, w, r),
        };
    let done = journals->Ok_0;
    let j: Result<Vec<u8>, Error> = Ok(done);
    let grants = choose|grants: Seq<SealedView>| #[trigger]
        grants_kept(st.forward_grants@, grants, w) && {
            let policy = policy_entry(st, grants, w);
            match oversize::<PolicyFrame>(policy, write_layout(st, w)) {
                Some(e) => j == Err::<Vec<u8>, Error>(e),
                None => j matches Ok(done) && done@ == journals_bytes(st, policy, w),
            }
        };
    let policy = policy_entry(st, grants, w);
    let tail = choose|tail: Result<Vec<u8>, Error>| #[trigger]
        writes_tail(st, done@, w, tail) && match tail {
            Err(e) => r == Err::<Vec<u8>, Error>(e),
            Ok(done) => encodes_machine(st, done@, w, r),
        };
    let tail = tail->Ok_0;
    let (inbox, joins, central) = lemma_tail_follows(st, done@, w, tail);
    let written = rendered::<TailFrame>(tail_entry(st, inbox@, joins, central@), write_layout(st, w));
    let (machine, directory, t_end) = lemma_end_follows(st, tail@, w, bytes);
    let end = rendered::<TrailerFrame>(t_end, write_layout(st, w));
    let rest = written + end;
    assert(bytes@ =~= done@ + rest);
    lemma_front_as_written(st, grants, rest, w);
    assert(bytes@.subrange(done@.len() as int, (done@.len() + written.len()) as int) =~= written);
    let b = lemma_tail_as_written(st, front(st, policy, w), inbox, central, joins, bytes@, done@.len() as int, w);
    assert(bytes@.subrange(tail@.len() as int, (tail@.len() + end.len()) as int) =~= end);
    lemma_end_as_written(st, b, machine, directory, t_end, bytes@, tail@.len() as int, w);
    assert forall|k: int| 0 <= k < a.core.pending.len() implies (#[trigger] a.core.pending[k]).delivery.relay.len() == 0 by {
        let i = lemma_entry_of(st.pending_1to1.entries@, st.pending_1to1.entries@.len(), writing(st, w), k);
    }
}

} // verus!
