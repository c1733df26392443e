//! Reading an archive depends on what the listed byte strings mean, and on nothing
//! else of the kind.

use vstd::prelude::*;
use crate::archive::{all_may_wait, central_stage, channel_at, channel_names, channel_stage, channels_at, core_only, count_at, decoded, either_trailer, field_at, inbox_stage, inline_routes, join_at, joins_at, layout_of, magic_version, may_wait, number_at, one_at, option_at, owner_in, policy_stage, prepared_stage, retained_trailer, role_named, routed_trailer, routes_at, tls_stage, trailer_at, trailer_stage, unified_at, unified_trailer, with_trailer, ArchiveView, NamedRoutesView, Reader};
use crate::archive_check::{all_good, body_good, cells_carried, core_good, current_members, delivery_good, in_order, members_good, message_good, messages_good, numbered, policy_good, recipients_good, reconciled, removal_key, removals_good, ChannelFacts, Checks, Entry};
use crate::archive_frame::{AdmissionFrame, ArchivedChannelView, ChannelBody, ChannelBodyView, ChannelHead, ChannelHeadView, CommitAckFrame, CommitAckView, ControlFrame, ControlView, CoreFrame, CoreView, DeliveryFrame, DeliveryView, ExpectedView, IdFrame, InviteFrame, MemberFrame, MemberView, MessageView, NameFrame, PeerFrame, PeerRouteFrame, PeerRouteView, PendingFrame, PendingView, PolicyFrame, PolicyView, PreparedFrame, ProcessedFrame, ProcessedView, RecipientFrame, RecipientView, SealedView, SessionFrame, SessionView};
use crate::archive_strings::{central_part, channel_strings, channels_part, channels_strings, counted_strings, directory_strings, either_strings, end_of, entries_strings, followed, from_central, from_channels, from_inbox, from_joins, from_policy, from_tls, from_trailer, grants_strings, inbox_part, inline_strings, joins_part, joins_strings, ledger_part, one_strings, option_strings, owner_in_strings, owner_strings, policy_part, retained_strings, route_under, routed_strings, routes_strings, routes_under, sealed_inbox_strings, sealed_route_strings, strings_in, tls_part, trailer_strings, unified_strings, Source};
use crate::channel_route::{established_route, opened_for, prepared_context, prepared_route, route_context, route_of, unified_route};
use crate::codec::{Codec, Protocol, RoleFacts};
use crate::model::{views, Cell, RelayTarget};
use crate::owner_aliases::{aliases_error, groups_error, spec_active_target, GroupView, RecordView};
use crate::owner_record::{bare, bound_group, bound_record, opened_record, owner_plain, unbound, GroupFrame, RecordFrame, RecordFrameView};
use crate::record::reads;
use crate::restore::{grants_of, Grants};
use crate::seal::{opened, ContextView};
use crate::sealed_parts::{entries_at, inbox_context, opened_central, opened_directory, opened_inbox, opened_tls};
use crate::strings::{all_strings, body_strings, core_strings, message_strings, none, one, strings_of, StringView, Stringed};
use crate::table::lemma_place;

verus! {

/// What a name alone stands for, as text.
pub open spec fn named_removal(c: Codec, name: Seq<char>) -> Option<Seq<char>> {
    match c.legacy_removal_keys.lookup(name) {
        Some(key) => Some(key@),
        None => None,
    }
}

/// Whether two codecs say the same of something.
pub open spec fn agree_on(a: Codec, b: Codec, s: StringView) -> bool {
    match s {
        StringView::Card(x) => a.card(x) == b.card(x),
        StringView::PrivateCard(x) => a.private_card(x) == b.private_card(x),
        StringView::Route(x) => a.route(x) == b.route(x),
        StringView::Session(x) => views(a.plain_sessions@).contains(x) == views(b.plain_sessions@).contains(x)
            && a.sealed_sessions.has(x) == b.sealed_sessions.has(x),
        StringView::Record(x) => a.is_volatile(x) == b.is_volatile(x) && a.is_durable(x) == b.is_durable(x) && a.is_direct(x)
            == b.is_direct(x),
        StringView::Cell(x) => a.carries(x) == b.carries(x),
        StringView::Role((owner, name, blob)) => a.role(owner, name, blob) == b.role(owner, name, blob),
        StringView::Message((channel, wire)) => a.message_id(channel, wire) == b.message_id(channel, wire),
        StringView::Removal(x) => views(a.removal_keys@).contains(x) == views(b.removal_keys@).contains(x) && named_removal(a, x)
            == named_removal(b, x),
        StringView::Join(x) => a.joins.lookup(x) == b.joins.lookup(x),
        StringView::Inbox(x) => a.inbox.lookup(x) == b.inbox.lookup(x),
        StringView::TlsIdentity(x) => views(a.tls_identities@).contains(x) == views(b.tls_identities@).contains(x),
        StringView::Directory(x) => views(a.directories@).contains(x) == views(b.directories@).contains(x),
        StringView::Receipts(x) => views(a.receipts@).contains(x) == views(b.receipts@).contains(x),
        StringView::Partition(x) => a.partitions_well(x) == b.partitions_well(x),
        StringView::Grant(x) => a.grants.lookup(x) == b.grants.lookup(x),
    }
}

/// Whether two codecs say the same of everything in a list.
pub open spec fn agree(a: Codec, b: Codec, list: Seq<StringView>) -> bool {
    forall|i: int| 0 <= i < list.len() ==> agree_on(a, b, #[trigger] list[i])
}

/// Whether two codecs have the contexts of a source, and say the same of secrets,
/// aliases and routes, which are values that byte strings decode to.
pub open spec fn alike(a: Codec, b: Codec, x: Source) -> bool {
    &&& a.contexts == *x.contexts
    &&& b.contexts == *x.contexts
    &&& a.direct_secrets == b.direct_secrets
    &&& a.retained == b.retained
    &&& a.renewed == b.renewed
    &&& a.valid_routes == b.valid_routes
}

pub broadcast proof fn agree_on_both(a: Codec, b: Codec, p: Seq<StringView>, q: Seq<StringView>)
    ensures
        #[trigger] agree(a, b, p + q) == (agree(a, b, p) && agree(a, b, q)),
{
    if agree(a, b, p + q) {
        assert forall|i: int| 0 <= i < p.len() implies agree_on(a, b, #[trigger] p[i]) by {
            assert((p + q)[i] == p[i]);
        }
        assert forall|i: int| 0 <= i < q.len() implies agree_on(a, b, #[trigger] q[i]) by {
            assert((p + q)[p.len() + i] == q[i]);
        }
    }
}

pub broadcast proof fn agree_on_one(a: Codec, b: Codec, s: StringView)
    ensures
        #[trigger] agree(a, b, one(s)) == agree_on(a, b, s),
{
    assert(one(s)[0] == s);
}

pub broadcast proof fn agree_with_itself(a: Codec, list: Seq<StringView>)
    ensures
        #[trigger] agree(a, a, list),
{
}

pub broadcast group group_agree {
    agree_on_both,
    agree_on_one,
    agree_with_itself,
}

/// What is listed of a list is listed of each in it.
pub proof fn lemma_each<R: Stringed>(a: Codec, b: Codec, vs: Seq<R::V>, n: nat, version: u8, i: int)
    requires
        agree(a, b, strings_of::<R>(vs, n, version)),
        0 <= i < n,
    ensures
        agree(a, b, R::strings(vs[i], version)),
    decreases n,
{
    broadcast use group_agree;

    if i < n - 1 {
        lemma_each::<R>(a, b, vs, (n - 1) as nat, version, i);
    }
}

/// Entries that are judged alike by codecs that agree on what is listed of them.
trait Judged: Stringed + Entry {
    proof fn judged_alike(v: <Self as View>::V, version: u8, a: &Codec, b: &Codec)
        requires
            agree(*a, *b, Self::strings(v, version)),
        ensures
            Self::good(v, Checks { version, codec: a }) == Self::good(v, Checks { version, codec: b }),
    ;
}

proof fn lemma_judged<E: Judged>(vs: Seq<<E as View>::V>, version: u8, a: &Codec, b: &Codec)
    requires
        agree(*a, *b, all_strings::<E>(vs, version)),
    ensures
        all_good::<E>(vs, Checks { version, codec: a }) == all_good::<E>(vs, Checks { version, codec: b }),
        in_order::<E>(vs, Checks { version, codec: a }) == in_order::<E>(vs, Checks { version, codec: b }),
{
    assert forall|i: int| 0 <= i < vs.len() implies E::good(#[trigger] vs[i], Checks { version, codec: a }) == E::good(
        vs[i],
        Checks { version, codec: b },
    ) by {
        lemma_each::<E>(*a, *b, vs, vs.len(), version, i);
        E::judged_alike(vs[i], version, a, b);
    }
    let (ca, cb) = (Checks { version, codec: a }, Checks { version, codec: b });
    if all_good::<E>(vs, ca) {
        assert forall|i: int| 0 <= i < vs.len() implies E::good(#[trigger] vs[i], cb) by {
            assert(E::good(vs[i], ca));
        }
    }
    if all_good::<E>(vs, cb) {
        assert forall|i: int| 0 <= i < vs.len() implies E::good(#[trigger] vs[i], ca) by {
            assert(E::good(vs[i], cb));
        }
    }
}

impl Judged for SessionFrame {
    proof fn judged_alike(v: SessionView, version: u8, a: &Codec, b: &Codec) {
        broadcast use group_agree;

    }
}

impl Judged for PeerRouteFrame {
    proof fn judged_alike(v: PeerRouteView, version: u8, a: &Codec, b: &Codec) {
        broadcast use group_agree;

    }
}

proof fn lemma_delivery(v: DeliveryView, version: u8, a: &Codec, b: &Codec)
    requires
        agree(*a, *b, DeliveryFrame::strings(v, version)),
    ensures
        delivery_good(v, Checks { version, codec: a }) == delivery_good(v, Checks { version, codec: b }),
        a.card(v.card) == b.card(v.card),
{
    broadcast use group_agree;

    assert forall|i: int| 0 <= i < v.cells.len() implies a.carries(#[trigger] v.cells[i]) == b.carries(v.cells[i]) by {
        lemma_each::<Cell>(*a, *b, v.cells, v.cells.len(), version, i);
    }
    assert(cells_carried(v.cells, *a) == cells_carried(v.cells, *b));
}

impl Judged for DeliveryFrame {
    proof fn judged_alike(v: DeliveryView, version: u8, a: &Codec, b: &Codec) {
        lemma_delivery(v, version, a, b);
    }
}

impl Judged for PendingFrame {
    proof fn judged_alike(v: PendingView, version: u8, a: &Codec, b: &Codec) {
        broadcast use group_agree;

        lemma_delivery(v.delivery, version, a, b);
    }
}

impl Judged for ProcessedFrame {
    proof fn judged_alike(v: ProcessedView, version: u8, a: &Codec, b: &Codec) {
        lemma_delivery(v.delivery, version, a, b);
    }
}

impl Judged for RecipientFrame {
    proof fn judged_alike(v: RecipientView, version: u8, a: &Codec, b: &Codec) {
        broadcast use group_agree;

    }
}

impl Judged for ControlFrame {
    proof fn judged_alike(v: ControlView, version: u8, a: &Codec, b: &Codec) {
        broadcast use group_agree;

    }
}

impl Judged for CommitAckFrame {
    proof fn judged_alike(v: CommitAckView, version: u8, a: &Codec, b: &Codec) {
        broadcast use group_agree;

    }
}

proof fn lemma_core(v: CoreView, version: u8, a: &Codec, b: &Codec)
    requires
        agree(*a, *b, core_strings(v, version)),
    ensures
        core_good(v, Checks { version, codec: a }) == core_good(v, Checks { version, codec: b }),
{
    broadcast use group_agree;

    reveal(core_good);
    lemma_judged::<SessionFrame>(v.sessions, version, a, b);
    lemma_judged::<PeerRouteFrame>(v.peer_routes, version, a, b);
    lemma_judged::<PendingFrame>(v.pending, version, a, b);
    lemma_judged::<DeliveryFrame>(v.acks, version, a, b);
    lemma_judged::<ProcessedFrame>(v.processed, version, a, b);
}

proof fn lemma_recipients(v: ExpectedView, version: u8, a: &Codec, b: &Codec)
    requires
        agree(*a, *b, all_strings::<RecipientFrame>(v.expected, version)),
    ensures
        recipients_good(v, Checks { version, codec: a }) == recipients_good(v, Checks { version, codec: b }),
{
    let (ca, cb) = (Checks { version, codec: a }, Checks { version, codec: b });
    lemma_judged::<RecipientFrame>(v.expected, version, a, b);
    assert(all_good::<IdFrame>(v.acknowledged, ca) && all_good::<IdFrame>(v.acknowledged, cb));
}

/// What is listed of messages is listed of each.
proof fn lemma_each_message(a: Codec, b: Codec, vs: Seq<MessageView>, n: nat, channel: Seq<char>, version: u8, i: int)
    requires
        agree(a, b, message_strings(vs, n, channel, version)),
        0 <= i < n,
    ensures
        a.message_id(channel, vs[i].wire) == b.message_id(channel, vs[i].wire),
        agree(a, b, all_strings::<RecipientFrame>(vs[i].recipients.expected, version)),
    decreases n,
{
    broadcast use group_agree;

    if i < n - 1 {
        lemma_each_message(a, b, vs, (n - 1) as nat, channel, version, i);
    }
}

proof fn lemma_members(s: Seq<MemberView>, n: nat, ka: ChannelFacts, kb: ChannelFacts)
    requires
        n <= s.len(),
        agree(*ka.c.codec, *kb.c.codec, all_strings::<MemberFrame>(s, ka.c.version)),
        ka.role == kb.role,
    ensures
        current_members(s, n, ka) == current_members(s, n, kb),
    decreases n,
{
    broadcast use group_agree;

    if n > 0 {
        lemma_members(s, (n - 1) as nat, ka, kb);
        lemma_each::<MemberFrame>(*ka.c.codec, *kb.c.codec, s, s.len(), ka.c.version, n - 1);
    }
}

/// The journals of a channel are judged and held to the role alike.
proof fn lemma_body(v: ChannelBodyView, ka: ChannelFacts, kb: ChannelFacts)
    requires
        agree(*ka.c.codec, *kb.c.codec, body_strings(v, ka.name, ka.c.version)),
        ka.c.version == kb.c.version,
        ka.name == kb.name,
        ka.role == kb.role,
    ensures
        body_good(v, ka) == body_good(v, kb),
        reconciled(v, ka) == reconciled(v, kb),
{
    broadcast use group_agree;

    reveal(body_good);
    let (a, b, version) = (ka.c.codec, kb.c.codec, ka.c.version);
    let (ca, cb) = (Checks { version, codec: a }, Checks { version, codec: b });
    assert(ka.c == ca && kb.c == cb);
    lemma_members(v.outbox.directory, v.outbox.directory.len(), ka, kb);
    let s = v.outbox.directory;
    assert forall|i: int| 0 <= i < s.len() implies a.route((#[trigger] s[i]).route) == b.route(s[i].route) by {
        lemma_each::<MemberFrame>(*a, *b, s, s.len(), version, i);
    }
    assert(members_good(s, ka) == members_good(s, kb));
    let m = v.outbox.messages;
    assert forall|i: int| 0 <= i < m.len() implies message_good(#[trigger] m[i], ka) == message_good(m[i], kb) by {
        lemma_each_message(*a, *b, m, m.len(), ka.name, version, i);
        lemma_recipients(m[i].recipients, version, a, b);
    }
    assert(messages_good(m, ka) == messages_good(m, kb));
    match v.outbox.membership {
        Some(c) => {
            lemma_recipients(c.recipients, version, a, b);
        },
        None => {},
    }
    lemma_judged::<ControlFrame>(v.ledger.control, version, a, b);
    lemma_judged::<CommitAckFrame>(v.ledger.commit_acks, version, a, b);
    let names = v.ledger.removals;
    assert forall|i: int| 0 <= i < names.len() implies removal_key((#[trigger] names[i]).name, ca) == removal_key(names[i].name, cb) by {
        lemma_each::<NameFrame>(*a, *b, names, names.len(), version, i);
    }
    assert(removals_good(names, ca) == removals_good(names, cb));
    assert(in_order::<AdmissionFrame>(v.ledger.admissions, ca) == in_order::<AdmissionFrame>(v.ledger.admissions, cb)) by {
        assert(all_good::<AdmissionFrame>(v.ledger.admissions, ca) == all_good::<AdmissionFrame>(v.ledger.admissions, cb));
    }
    assert(all_good::<InviteFrame>(v.ledger.invites, ca) && all_good::<InviteFrame>(v.ledger.invites, cb));
}

proof fn lemma_policy(v: PolicyView, names: Seq<Seq<char>>, version: u8, a: &Codec, b: &Codec)
    ensures
        policy_good(v, names, Checks { version, codec: a }) == policy_good(v, names, Checks { version, codec: b }),
{
    reveal(policy_good);
    let (ca, cb) = (Checks { version, codec: a }, Checks { version, codec: b });
    assert(all_good::<PeerFrame>(v.peers, ca) == all_good::<PeerFrame>(v.peers, cb));
    assert(all_good::<NameFrame>(v.channels, ca) && all_good::<NameFrame>(v.channels, cb));
}

/// What is listed of a sealed route is listed of it under each context.
proof fn lemma_under(a: Codec, b: Codec, sealed: Seq<u8>, n: nat, x: Source, i: int)
    requires
        agree(a, b, routes_under(sealed, n, x)),
        0 <= i < n,
    ensures
        agree(a, b, route_under(sealed, x.contexts.entries@[i].1@, x)),
    decreases n,
{
    broadcast use group_agree;

    if i < n - 1 {
        lemma_under(a, b, sealed, (n - 1) as nat, x, i);
    }
}

/// A sealed route is the same to both.
proof fn lemma_sealed_route(sealed: Seq<u8>, c: ContextView, x: Source, a: &Codec, b: &Codec)
    requires
        alike(*a, *b, x),
        agree(*a, *b, sealed_route_strings(sealed, x)),
    ensures
        match opened_for(x.keys.archive_key@, a.aad(c), sealed) {
            Ok(plain) => forall|id: [u8; 32], secret: [u8; 32]| #[trigger]
                route_of(plain, id, secret, *a) == route_of(plain, id, secret, *b),
            Err(_) => true,
        },
{
    broadcast use group_agree;

    match opened_for(x.keys.archive_key@, a.aad(c), sealed) {
        Ok(plain) => {
            let i = crate::table::place(x.contexts.keys(), c);
            lemma_place(x.contexts.keys(), c);
            assert(x.contexts.keys().len() == x.contexts.entries@.len());
            lemma_under(*a, *b, sealed, x.contexts.entries@.len(), x, i);
        },
        Err(_) => {},
    }
}

/// A route that is sealed is opened alike, in each of the ways that there are.
proof fn lemma_route_ways(sealed: Seq<u8>, x: Source, a: &Codec, b: &Codec)
    requires
        alike(*a, *b, x),
        agree(*a, *b, sealed_route_strings(sealed, x)),
    ensures
        forall|id: [u8; 32]| #[trigger]
            prepared_route(sealed, id, *x.keys, *a) == prepared_route(sealed, id, *x.keys, *b),
        forall|name: Seq<char>, owner: bool, role: RoleFacts, previous: bool| #[trigger]
            established_route(sealed, name, owner, role, previous, *x.keys, *a, *x.p) == established_route(
                sealed,
                name,
                owner,
                role,
                previous,
                *x.keys,
                *b,
                *x.p,
            ),
        forall|name: Seq<char>, role: RoleFacts, previous: bool| #[trigger]
            unified_route(sealed, name, role, previous, *x.keys, *a, *x.p) == unified_route(
                sealed,
                name,
                role,
                previous,
                *x.keys,
                *b,
                *x.p,
            ),
{
    assert forall|id: [u8; 32]| #[trigger]
        prepared_route(sealed, id, *x.keys, *a) == prepared_route(sealed, id, *x.keys, *b) by {
        lemma_sealed_route(sealed, prepared_context(x.keys.identity_public@, id), x, a, b);
    }
    assert forall|name: Seq<char>, owner: bool, role: RoleFacts, previous: bool| #[trigger]
        established_route(sealed, name, owner, role, previous, *x.keys, *a, *x.p) == established_route(
            sealed,
            name,
            owner,
            role,
            previous,
            *x.keys,
            *b,
            *x.p,
        ) by {
        lemma_sealed_route(sealed, route_context(x.keys.identity_public@, role, previous), x, a, b);
    }
    assert forall|name: Seq<char>, role: RoleFacts, previous: bool| #[trigger]
        unified_route(sealed, name, role, previous, *x.keys, *a, *x.p) == unified_route(
            sealed,
            name,
            role,
            previous,
            *x.keys,
            *b,
            *x.p,
        ) by {
        lemma_sealed_route(sealed, route_context(x.keys.identity_public@, role, previous), x, a, b);
    }
}

/// A reader with the keys of a source.
pub open spec fn reader<'a>(x: Source<'a>, codec: &'a Codec) -> Reader<'a> {
    Reader { keys: x.keys, codec, p: x.p }
}

/// What is asked of two codecs: to agree on a list, or to be the same where there is
/// none.
spec fn given(part: Option<(Seq<StringView>, int)>, a: Codec, b: Codec) -> bool {
    match part {
        Some((list, _)) => agree(a, b, list),
        None => a == b,
    }
}

spec fn given_plain(part: Option<Seq<StringView>>, a: Codec, b: Codec) -> bool {
    match part {
        Some(list) => agree(a, b, list),
        None => a == b,
    }
}

proof fn lemma_inline<'a>(
    buf: Seq<u8>,
    at: int,
    head: ChannelHeadView,
    role: RoleFacts,
    version: u8,
    x: Source<'a>,
    a: &'a Codec,
    b: &'a Codec,
)
    requires
        alike(*a, *b, x),
        given(inline_strings(buf, at, version, x), *a, *b),
    ensures
        inline_routes(buf, at, head, role, version, reader(x, a)) == inline_routes(buf, at, head, role, version, reader(x, b)),
        inline_routes(buf, at, head, role, version, reader(x, a)) is Ok ==> inline_strings(buf, at, version, x) is Some && end_of(
            inline_strings(buf, at, version, x),
        ) == inline_routes(buf, at, head, role, version, reader(x, a))->Ok_0.1,
{
    broadcast use group_agree;

    if version == 17 {
        match field_at(buf, at) {
            Some((sealed, q)) => {
                lemma_route_ways(sealed, x, a, b);
                match option_at(buf, q) {
                    Some((Some(sealed), _)) => {
                        lemma_route_ways(sealed, x, a, b);
                    },
                    _ => {},
                }
            },
            None => {},
        }
    }
}

proof fn lemma_channel<'a>(buf: Seq<u8>, at: int, before: Seq<ArchivedChannelView>, version: u8, x: Source<'a>, a: &'a Codec, b: &'a Codec)
    requires
        alike(*a, *b, x),
        given(channel_strings(buf, at, version, x), *a, *b),
    ensures
        ({
            let ra = channel_at(buf, at, before, version, reader(x, a));
            let list = channel_strings(buf, at, version, x);
            &&& ra == channel_at(buf, at, before, version, reader(x, b))
            &&& ra matches Ok((channel, _, end)) ==> list is Some && end_of(list) == end && same_role(channel, *a, *b)
        }),
{
    broadcast use group_agree;

    reveal(channel_at);
    reveal(channel_strings);
    let layout = layout_of(version, *x.p);
    match reads::<ChannelHead>(layout, buf, at) {
        Some((head, q)) => {
            match a.role(head.owner, head.name, head.blob) {
                Some(role) => {
                    lemma_inline(buf, q, head, role, version, x, a, b);
                    match inline_strings(buf, q, version, x) {
                        Some((_, q)) => match reads::<ChannelBody>(layout, buf, q) {
                            Some((body, _)) => {
                                let ka = ChannelFacts { c: Checks { version, codec: a }, name: head.name, role };
                                let kb = ChannelFacts { c: Checks { version, codec: b }, name: head.name, role };
                                lemma_body(body, ka, kb);
                            },
                            None => {},
                        },
                        None => {},
                    }
                },
                None => {},
            }
        },
        None => {},
    }
}

/// Whether the role of a channel is the same to both.
spec fn same_role(c: ArchivedChannelView, a: Codec, b: Codec) -> bool {
    a.role(c.head.owner, c.head.name, c.head.blob) == b.role(c.head.owner, c.head.name, c.head.blob)
}

spec fn same_roles(cs: Seq<ArchivedChannelView>, a: Codec, b: Codec) -> bool {
    forall|i: int| 0 <= i < cs.len() ==> same_role(#[trigger] cs[i], a, b)
}

proof fn lemma_channels<'a>(buf: Seq<u8>, at: int, n: nat, version: u8, x: Source<'a>, a: &'a Codec, b: &'a Codec)
    requires
        alike(*a, *b, x),
        given(channels_strings(buf, at, n, version, x), *a, *b),
    ensures
        ({
            let ra = channels_at(buf, at, n, version, reader(x, a));
            let list = channels_strings(buf, at, n, version, x);
            &&& ra == channels_at(buf, at, n, version, reader(x, b))
            &&& ra matches Ok((channels, _, end)) ==> list is Some && end_of(list) == end && same_roles(channels, *a, *b)
        }),
    decreases n,
{
    broadcast use group_agree;

    if n > 0 {
        let m = (n - 1) as nat;
        lemma_channels(buf, at, m, version, x, a, b);
        match channels_at(buf, at, m, version, reader(x, a)) {
            Ok((before, _, q)) => {
                lemma_channel(buf, q, before, version, x, a, b);
            },
            Err(_) => {},
        }
    }
}

proof fn lemma_entries(s: Seq<u8>, at: int, n: nat, next: u64, a: &Codec, b: &Codec)
    requires
        given(entries_strings(s, at, n), *a, *b),
    ensures
        entries_at(s, at, n, next, *a) == entries_at(s, at, n, next, *b),
        entries_at(s, at, n, next, *a) is Ok ==> entries_strings(s, at, n) is Some && end_of(entries_strings(s, at, n)) == entries_at(
            s,
            at,
            n,
            next,
            *a,
        )->Ok_0.1,
    decreases n,
{
    broadcast use group_agree;

    if n > 0 {
        lemma_entries(s, at, (n - 1) as nat, next, a, b);
    }
}

proof fn lemma_inbox(sealed: Seq<u8>, x: Source, a: &Codec, b: &Codec)
    requires
        alike(*a, *b, x),
        given_plain(sealed_inbox_strings(sealed, x), *a, *b),
    ensures
        opened_inbox(sealed, *x.keys, *a, *x.p) == opened_inbox(sealed, *x.keys, *b, *x.p),
        opened_inbox(sealed, *x.keys, *a, *x.p) is Ok ==> sealed_inbox_strings(sealed, x) is Some,
{
    match opened_for(x.keys.wrapping_key@, a.aad(inbox_context(x.keys.identity_public@)), sealed) {
        Ok(plain) => {
            match number_at(plain, 0) {
                Some((next, q)) => match count_at(plain, q, x.p.application_inbox_limit as nat) {
                    Some((n, q)) => {
                        lemma_entries(plain, q, n, next, a, b);
                    },
                    None => {},
                },
                None => {},
            }
        },
        Err(_) => {},
    }
}

proof fn lemma_joins<'a>(buf: Seq<u8>, at: int, n: nat, next: u64, version: u8, x: Source<'a>, a: &'a Codec, b: &'a Codec)
    requires
        alike(*a, *b, x),
        given(joins_strings(buf, at, n, version, x), *a, *b),
    ensures
        ({
            let ra = joins_at(buf, at, n, next, version, reader(x, a));
            let list = joins_strings(buf, at, n, version, x);
            &&& ra == joins_at(buf, at, n, next, version, reader(x, b))
            &&& ra matches Ok((_, end)) ==> list is Some && end_of(list) == end
        }),
    decreases n,
{
    broadcast use group_agree;

    if n > 0 {
        let m = (n - 1) as nat;
        lemma_joins(buf, at, m, next, version, x, a, b);
        match joins_at(buf, at, m, next, version, reader(x, a)) {
            Ok((before, q)) => {
                reveal(join_at);
                match reads::<PreparedFrame>(layout_of(version, *x.p), buf, q) {
                    Some((f, _)) => {
                        lemma_route_ways(f.route, x, a, b);
                    },
                    None => {},
                }
            },
            Err(_) => {},
        }
    }
}

proof fn lemma_aliases_judged(
    g: GroupView,
    n: nat,
    renewals: Map<Seq<u8>, Seq<u8>>,
    target: RelayTarget,
    before: Seq<[u8; 32]>,
    a: Codec,
    b: Codec,
    p: Protocol,
)
    requires
        a.retained == b.retained,
        a.renewed == b.renewed,
    ensures
        aliases_error(g, n, renewals, target, before, a, p) == aliases_error(g, n, renewals, target, before, b, p),
    decreases n,
{
    if n > 0 {
        lemma_aliases_judged(g, (n - 1) as nat, renewals, target, before, a, b, p);
    }
}

proof fn lemma_groups_judged(r: RecordView, n: nat, target: RelayTarget, a: Codec, b: Codec, p: Protocol)
    requires
        a.retained == b.retained,
        a.renewed == b.renewed,
    ensures
        groups_error(r, n, target, a, p) == groups_error(r, n, target, b, p),
    decreases n,
{
    if n > 0 {
        lemma_groups_judged(r, (n - 1) as nat, target, a, b, p);
        let g = r.groups[n - 1];
        lemma_aliases_judged(
            g,
            g.provision.aliases.len(),
            r.renewals,
            target,
            crate::owner_aliases::ids_before(r.groups, (n - 1) as nat),
            a,
            b,
            p,
        );
    }
}

/// A frame stands for the same record to both.
proof fn lemma_unbound(f: RecordFrameView, identity: Seq<u8>, a: Codec, b: Codec, p: Protocol)
    requires
        a.retained == b.retained,
        a.renewed == b.renewed,
        agree(a, b, all_strings::<GroupFrame>(f.groups, 0)),
    ensures
        unbound(f, identity, a, p) == unbound(f, identity, b, p),
{
    broadcast use group_agree;

    assert forall|i: int| 0 <= i < f.groups.len() implies bound_group(#[trigger] f.groups[i], identity, a) == bound_group(
        f.groups[i],
        identity,
        b,
    ) by {
        lemma_each::<GroupFrame>(a, b, f.groups, f.groups.len(), 0, i);
    }
    match (bound_record(f, identity, a, p), bound_record(f, identity, b, p)) {
        (Some(ra), Some(rb)) => {
            assert(ra.groups =~= rb.groups);
            assert(ra == rb);
            match spec_active_target(ra.groups, ra.groups.len()) {
                Some(target) => {
                    lemma_groups_judged(ra, ra.groups.len(), target, a, b, p);
                },
                None => {},
            }
        },
        (Some(ra), None) => {
            assert forall|i: int| 0 <= i < f.groups.len() implies bound_group(#[trigger] f.groups[i], identity, b) is Some by {
                assert(bound_group(f.groups[i], identity, a) is Some);
            }
        },
        (None, Some(rb)) => {
            assert forall|i: int| 0 <= i < f.groups.len() implies bound_group(#[trigger] f.groups[i], identity, a) is Some by {
                assert(bound_group(f.groups[i], identity, b) is Some);
            }
        },
        (None, None) => {},
    }
}

proof fn lemma_owner(sealed: Seq<u8>, x: Source, a: &Codec, b: &Codec)
    requires
        alike(*a, *b, x),
        given_plain(owner_strings(sealed, x), *a, *b),
    ensures
        opened_record(sealed, *x.keys, *a, *x.p) == opened_record(sealed, *x.keys, *b, *x.p),
        opened_record(sealed, *x.keys, *a, *x.p) is Ok ==> owner_strings(sealed, x) is Some,
{
    reveal(opened_record);
    match owner_plain(sealed, *x.keys, *a) {
        Ok(plain) => match reads::<RecordFrame>(bare(), plain, 0) {
            Some((f, _)) => {
                lemma_unbound(f, x.keys.identity_public@, *a, *b, *x.p);
            },
            None => {},
        },
        Err(_) => {},
    }
}

proof fn lemma_owner_in<'a>(sealed: Seq<u8>, x: Source<'a>, a: &'a Codec, b: &'a Codec)
    requires
        alike(*a, *b, x),
        given_plain(owner_in_strings(sealed, x), *a, *b),
    ensures
        owner_in(sealed, reader(x, a)) == owner_in(sealed, reader(x, b)),
        owner_in(sealed, reader(x, a)) is Ok ==> owner_in_strings(sealed, x) is Some,
{
    if sealed.len() > 0 {
        lemma_owner(sealed, x, a, b);
    }
}

proof fn lemma_directory(sealed: Seq<u8>, x: Source, a: &Codec, b: &Codec)
    requires
        alike(*a, *b, x),
        given_plain(directory_strings(sealed, x), *a, *b),
    ensures
        opened_directory(sealed, *x.keys, *a) == opened_directory(sealed, *x.keys, *b),
        opened_directory(sealed, *x.keys, *a) is Ok ==> directory_strings(sealed, x) is Some,
{
    broadcast use group_agree;

}

/// The role of a channel by its name is the same to both.
proof fn lemma_role_named(cs: Seq<ArchivedChannelView>, name: Seq<char>, a: Codec, b: Codec)
    requires
        same_roles(cs, a, b),
    ensures
        role_named(cs, name, a) == role_named(cs, name, b),
{
    let names = channel_names(cs);
    lemma_place(names, name);
    if names.contains(name) {
        assert(same_role(cs[crate::table::place(names, name)], a, b));
    }
}

proof fn lemma_option<'a>(
    buf: Seq<u8>,
    at: int,
    name: Seq<char>,
    role: RoleFacts,
    previous: bool,
    x: Source<'a>,
    a: &'a Codec,
    b: &'a Codec,
)
    requires
        alike(*a, *b, x),
        given(option_strings(buf, at, x), *a, *b),
    ensures
        ({
            let ra = unified_at(buf, at, name, role, previous, reader(x, a));
            let list = option_strings(buf, at, x);
            &&& ra == unified_at(buf, at, name, role, previous, reader(x, b))
            &&& ra matches Ok((_, end)) ==> list is Some && end_of(list) == end
        }),
{
    match option_at(buf, at) {
        Some((Some(sealed), _)) => {
            lemma_route_ways(sealed, x, a, b);
        },
        _ => {},
    }
}

proof fn lemma_one<'a>(
    buf: Seq<u8>,
    at: int,
    recovered: bool,
    before: Seq<NamedRoutesView>,
    channels: Seq<ArchivedChannelView>,
    version: u8,
    x: Source<'a>,
    a: &'a Codec,
    b: &'a Codec,
)
    requires
        alike(*a, *b, x),
        same_roles(channels, *a, *b),
        given(one_strings(buf, at, recovered, version, x), *a, *b),
    ensures
        ({
            let ra = one_at(buf, at, recovered, before, channels, version, reader(x, a));
            let list = one_strings(buf, at, recovered, version, x);
            &&& ra == one_at(buf, at, recovered, before, channels, version, reader(x, b))
            &&& ra matches Ok((_, end)) ==> list is Some && end_of(list) == end
        }),
{
    broadcast use group_agree;

    reveal(one_at);
    reveal(one_strings);
    match reads::<NameFrame>(layout_of(version, *x.p), buf, at) {
        Some((v, q)) => {
            lemma_role_named(channels, v.name, *a, *b);
            match role_named(channels, v.name, *a) {
                Some(role) => {
                    if recovered {
                        match field_at(buf, q) {
                            Some((sealed, _)) => {
                                lemma_route_ways(sealed, x, a, b);
                            },
                            None => {},
                        }
                    } else {
                        lemma_option(buf, q, v.name, role, false, x, a, b);
                        match option_strings(buf, q, x) {
                            Some((_, q)) => {
                                lemma_option(buf, q, v.name, role, true, x, a, b);
                            },
                            None => {},
                        }
                    }
                },
                None => {},
            }
        },
        None => {},
    }
}

proof fn lemma_routes<'a>(
    buf: Seq<u8>,
    at: int,
    n: nat,
    recovered: bool,
    channels: Seq<ArchivedChannelView>,
    version: u8,
    x: Source<'a>,
    a: &'a Codec,
    b: &'a Codec,
)
    requires
        alike(*a, *b, x),
        same_roles(channels, *a, *b),
        given(routes_strings(buf, at, n, recovered, version, x), *a, *b),
    ensures
        ({
            let ra = routes_at(buf, at, n, recovered, channels, version, reader(x, a));
            let list = routes_strings(buf, at, n, recovered, version, x);
            &&& ra == routes_at(buf, at, n, recovered, channels, version, reader(x, b))
            &&& ra matches Ok((_, end)) ==> list is Some && end_of(list) == end
        }),
    decreases n,
{
    broadcast use group_agree;

    if n > 0 {
        let m = (n - 1) as nat;
        lemma_routes(buf, at, m, recovered, channels, version, x, a, b);
        match routes_at(buf, at, m, recovered, channels, version, reader(x, a)) {
            Ok((before, q)) => {
                lemma_one(buf, q, recovered, before, channels, version, x, a, b);
            },
            Err(_) => {},
        }
    }
}

proof fn lemma_retained<'a>(buf: Seq<u8>, at: int, central: bool, x: Source<'a>, a: &'a Codec, b: &'a Codec)
    requires
        alike(*a, *b, x),
        given_plain(retained_strings(buf, at, x), *a, *b),
    ensures
        retained_trailer(buf, at, central, reader(x, a)) == retained_trailer(buf, at, central, reader(x, b)),
        retained_trailer(buf, at, central, reader(x, a)) is Ok ==> retained_strings(buf, at, x) is Some,
{
    match field_at(buf, at) {
        Some((_, q)) => match field_at(buf, q) {
            Some((sealed, _)) => {
                lemma_owner(sealed, x, a, b);
            },
            None => {},
        },
        None => {},
    }
}

proof fn lemma_counted<'a>(
    buf: Seq<u8>,
    at: int,
    recovered: bool,
    channels: Seq<ArchivedChannelView>,
    version: u8,
    x: Source<'a>,
    a: &'a Codec,
    b: &'a Codec,
)
    requires
        alike(*a, *b, x),
        same_roles(channels, *a, *b),
        given(counted_strings(buf, at, recovered, version, x), *a, *b),
    ensures
        match count_at(buf, at, 1024) {
            Some((n, q)) => {
                let ra = routes_at(buf, q, n, recovered, channels, version, reader(x, a));
                let list = counted_strings(buf, at, recovered, version, x);
                &&& ra == routes_at(buf, q, n, recovered, channels, version, reader(x, b))
                &&& ra matches Ok((_, end)) ==> list is Some && end_of(list) == end
            },
            None => true,
        },
{
    match count_at(buf, at, 1024) {
        Some((n, q)) => {
            lemma_routes(buf, q, n, recovered, channels, version, x, a, b);
        },
        None => {},
    }
}

proof fn lemma_routed<'a>(buf: Seq<u8>, at: int, channels: Seq<ArchivedChannelView>, version: u8, x: Source<'a>, a: &'a Codec, b: &'a Codec)
    requires
        alike(*a, *b, x),
        same_roles(channels, *a, *b),
        given_plain(routed_strings(buf, at, version, x), *a, *b),
    ensures
        routed_trailer(buf, at, channels, version, reader(x, a)) == routed_trailer(buf, at, channels, version, reader(x, b)),
        routed_trailer(buf, at, channels, version, reader(x, a)) is Ok ==> routed_strings(buf, at, version, x) is Some,
{
    broadcast use group_agree;

    match field_at(buf, at) {
        Some((sealed, q)) => {
            lemma_owner_in(sealed, x, a, b);
            match field_at(buf, q) {
                Some((sealed, q)) => {
                    lemma_directory(sealed, x, a, b);
                    lemma_counted(buf, q, true, channels, version, x, a, b);
                },
                None => {},
            }
        },
        None => {},
    }
}

/// Both grammars of version sixteen say the same to both, as far as they are listed.
proof fn lemma_either<'a>(
    buf: Seq<u8>,
    at: int,
    central: bool,
    channels: Seq<ArchivedChannelView>,
    version: u8,
    x: Source<'a>,
    a: &'a Codec,
    b: &'a Codec,
)
    requires
        alike(*a, *b, x),
        same_roles(channels, *a, *b),
        given_plain(either_strings(buf, at, version, x), *a, *b),
    ensures
        either_trailer(buf, at, central, channels, version, reader(x, a)) == either_trailer(
            buf,
            at,
            central,
            channels,
            version,
            reader(x, b),
        ),
        either_trailer(buf, at, central, channels, version, reader(x, a)) is Ok ==> either_strings(buf, at, version, x) is Some,
{
    broadcast use group_agree;

    if retained_strings(buf, at, x) is Some {
        lemma_retained(buf, at, central, x, a, b);
    } else {
        lemma_retained(buf, at, central, x, a, a);
        lemma_retained(buf, at, central, x, b, b);
    }
    if routed_strings(buf, at, version, x) is Some {
        lemma_routed(buf, at, channels, version, x, a, b);
    } else {
        lemma_routed(buf, at, channels, version, x, a, a);
        lemma_routed(buf, at, channels, version, x, b, b);
    }
}

proof fn lemma_unified<'a>(buf: Seq<u8>, at: int, channels: Seq<ArchivedChannelView>, version: u8, x: Source<'a>, a: &'a Codec, b: &'a Codec)
    requires
        alike(*a, *b, x),
        same_roles(channels, *a, *b),
        given(unified_strings(buf, at, version, x), *a, *b),
    ensures
        ({
            let ra = unified_trailer(buf, at, channels, version, reader(x, a));
            let list = unified_strings(buf, at, version, x);
            &&& ra == unified_trailer(buf, at, channels, version, reader(x, b))
            &&& ra matches Ok((_, end)) ==> list is Some && end_of(list) == end
        }),
{
    broadcast use group_agree;

    match field_at(buf, at) {
        Some((_, q)) => match field_at(buf, q) {
            Some((sealed, q)) => {
                if version == 17 {
                    lemma_owner(sealed, x, a, b);
                } else {
                    lemma_owner_in(sealed, x, a, b);
                    match field_at(buf, q) {
                        Some((sealed, q)) => {
                            if sealed.len() > 0 {
                                lemma_directory(sealed, x, a, b);
                            }
                            lemma_counted(buf, q, false, channels, version, x, a, b);
                        },
                        None => {},
                    }
                }
            },
            None => {},
        },
        None => {},
    }
}

proof fn lemma_trailer<'a>(buf: Seq<u8>, at: int, v: ArchiveView, x: Source<'a>, a: &'a Codec, b: &'a Codec)
    requires
        alike(*a, *b, x),
        same_roles(v.channels, *a, *b),
        given(trailer_strings(buf, at, v.version, x), *a, *b),
    ensures
        ({
            let ra = trailer_at(buf, at, v, reader(x, a));
            let list = trailer_strings(buf, at, v.version, x);
            &&& ra == trailer_at(buf, at, v, reader(x, b))
            &&& ra matches Ok((_, end)) ==> list is Some && end_of(list) == end
        }),
{
    if v.version == 16 {
        lemma_either(buf, at, v.central_ownership is Some, v.channels, v.version, x, a, b);
    } else if v.version >= 17 {
        lemma_unified(buf, at, v.channels, v.version, x, a, b);
    } else if v.version == 15 {
        match field_at(buf, at) {
            Some((sealed, _)) => {
                lemma_owner(sealed, x, a, b);
            },
            None => {},
        }
    }
}

/// Whether two codecs agree on what was listed of the parts read so far.
spec fn agreed(v: ArchiveView, a: Codec, b: Codec) -> bool {
    agree(a, b, core_strings(v.core, v.version)) && same_roles(v.channels, a, b)
}

proof fn lemma_waits(v: ArchiveView, a: &Codec, b: &Codec)
    requires
        agreed(v, *a, *b),
    ensures
        all_may_wait(v, *a) == all_may_wait(v, *b),
{
    broadcast use group_agree;

    let s = v.core.pending;
    assert forall|i: int| 0 <= i < s.len() implies may_wait(#[trigger] s[i], v, *a) == may_wait(s[i], v, *b) by {
        lemma_each::<PendingFrame>(*a, *b, s, s.len(), v.version, i);
        lemma_delivery(s[i].delivery, v.version, a, b);
    }
}

/// Where there is nothing to list after a part, nothing is listed at all, and two
/// codecs are one.
proof fn lemma_given(first: Option<(Seq<StringView>, int)>, next: Option<(Seq<StringView>, int)>, a: Codec, b: Codec)
    requires
        given(followed(first, next), a, b),
    ensures
        given(first, a, b),
        first is Some ==> given(next, a, b),
{
    broadcast use group_agree;

}

proof fn lemma_from_trailer<'a>(buf: Seq<u8>, at: int, v: ArchiveView, x: Source<'a>, a: &'a Codec, b: &'a Codec)
    requires
        alike(*a, *b, x),
        agreed(v, *a, *b),
        given(from_trailer(buf, at, v.version, x), *a, *b),
    ensures
        trailer_stage(buf, at, v, reader(x, a)) == trailer_stage(buf, at, v, reader(x, b)),
        trailer_stage(buf, at, v, reader(x, a)) is Ok ==> from_trailer(buf, at, v.version, x) is Some,
        trailer_stage(buf, at, v, reader(x, a)) matches Ok(w) ==> w.policy == v.policy,
{
    broadcast use group_agree;

    reveal(trailer_stage);
    let first = trailer_strings(buf, at, v.version, x);
    lemma_given(first, ledger_part(buf, end_of(first), v.version, x), *a, *b);
    lemma_trailer(buf, at, v, x, a, b);
    match trailer_at(buf, at, v, reader(x, a)) {
        Ok((t, q)) => {
            lemma_waits(with_trailer(v, t), a, b);
        },
        Err(_) => {},
    }
}

proof fn lemma_from_central<'a>(buf: Seq<u8>, at: int, v: ArchiveView, x: Source<'a>, a: &'a Codec, b: &'a Codec)
    requires
        alike(*a, *b, x),
        agreed(v, *a, *b),
        given(from_central(buf, at, v.version, x), *a, *b),
    ensures
        central_stage(buf, at, v, reader(x, a)) == central_stage(buf, at, v, reader(x, b)),
        central_stage(buf, at, v, reader(x, a)) is Ok ==> from_central(buf, at, v.version, x) is Some,
        central_stage(buf, at, v, reader(x, a)) matches Ok(w) ==> w.policy == v.policy,
{
    broadcast use group_agree;

    let first = central_part(buf, at, v.version, x);
    lemma_given(first, from_trailer(buf, end_of(first), v.version, x), *a, *b);
    if v.version < 14 {
        lemma_from_trailer(buf, at, v, x, a, b);
    } else {
        match field_at(buf, at) {
            Some((sealed, q)) => {
                assert(opened_central(sealed, *x.keys, *a) == opened_central(sealed, *x.keys, *b));
                match opened_central(sealed, *x.keys, *a) {
                    Ok(central_ownership) => {
                        lemma_from_trailer(buf, q, ArchiveView { central_ownership, ..v }, x, a, b);
                    },
                    Err(_) => {},
                }
            },
            None => {},
        }
    }
}

proof fn lemma_from_tls<'a>(buf: Seq<u8>, at: int, v: ArchiveView, x: Source<'a>, a: &'a Codec, b: &'a Codec)
    requires
        alike(*a, *b, x),
        agreed(v, *a, *b),
        given(from_tls(buf, at, v.version, x), *a, *b),
    ensures
        tls_stage(buf, at, v, reader(x, a)) == tls_stage(buf, at, v, reader(x, b)),
        tls_stage(buf, at, v, reader(x, a)) is Ok ==> from_tls(buf, at, v.version, x) is Some,
        tls_stage(buf, at, v, reader(x, a)) matches Ok(w) ==> w.policy == v.policy,
{
    broadcast use group_agree;

    let first = tls_part(buf, at, v.version, x);
    lemma_given(first, from_central(buf, end_of(first), v.version, x), *a, *b);
    if v.version < 13 {
        lemma_from_central(buf, at, v, x, a, b);
    } else {
        match field_at(buf, at) {
            Some((sealed, q)) => {
                if sealed.len() == 0 {
                    lemma_from_central(buf, q, v, x, a, b);
                } else {
                    assert(opened_tls(sealed, *x.keys, *a) == opened_tls(sealed, *x.keys, *b));
                    match opened_tls(sealed, *x.keys, *a) {
                        Ok(identity) => {
                            lemma_from_central(buf, q, ArchiveView { tls_identity: Some(identity), ..v }, x, a, b);
                        },
                        Err(_) => {},
                    }
                }
            },
            None => {},
        }
    }
}

proof fn lemma_from_joins<'a>(buf: Seq<u8>, at: int, v: ArchiveView, x: Source<'a>, a: &'a Codec, b: &'a Codec)
    requires
        alike(*a, *b, x),
        agreed(v, *a, *b),
        given(from_joins(buf, at, v.version, x), *a, *b),
    ensures
        prepared_stage(buf, at, v, reader(x, a)) == prepared_stage(buf, at, v, reader(x, b)),
        prepared_stage(buf, at, v, reader(x, a)) is Ok ==> from_joins(buf, at, v.version, x) is Some,
        prepared_stage(buf, at, v, reader(x, a)) matches Ok(w) ==> w.policy == v.policy,
{
    let first = joins_part(buf, at, v.version, x);
    lemma_given(first, from_tls(buf, end_of(first), v.version, x), *a, *b);
    if v.version < 12 {
        lemma_from_tls(buf, at, v, x, a, b);
    } else {
        match number_at(buf, at) {
            Some((next, q)) => match count_at(buf, q, 64) {
                Some((n, q)) => {
                    lemma_joins(buf, q, n, next, v.version, x, a, b);
                    match joins_at(buf, q, n, next, v.version, reader(x, a)) {
                        Ok((prepared, q)) => {
                            lemma_from_tls(buf, q, ArchiveView { next_prep_id: next, prepared, ..v }, x, a, b);
                        },
                        Err(_) => {},
                    }
                },
                None => {},
            },
            None => {},
        }
    }
}

proof fn lemma_from_inbox<'a>(buf: Seq<u8>, at: int, v: ArchiveView, x: Source<'a>, a: &'a Codec, b: &'a Codec)
    requires
        alike(*a, *b, x),
        agreed(v, *a, *b),
        given(from_inbox(buf, at, v.version, x), *a, *b),
    ensures
        inbox_stage(buf, at, v, reader(x, a)) == inbox_stage(buf, at, v, reader(x, b)),
        inbox_stage(buf, at, v, reader(x, a)) is Ok ==> from_inbox(buf, at, v.version, x) is Some,
        inbox_stage(buf, at, v, reader(x, a)) matches Ok(w) ==> w.policy == v.policy,
{
    reveal(inbox_stage);
    let first = inbox_part(buf, at, v.version, x);
    lemma_given(first, from_joins(buf, end_of(first), v.version, x), *a, *b);
    if v.version < 11 {
        lemma_from_joins(buf, at, v, x, a, b);
    } else {
        match field_at(buf, at) {
            Some((sealed, q)) => {
                lemma_inbox(sealed, x, a, b);
                match opened_inbox(sealed, *x.keys, *a, *x.p) {
                    Ok(application_inbox) => {
                        lemma_from_joins(buf, q, ArchiveView { application_inbox, ..v }, x, a, b);
                    },
                    Err(_) => {},
                }
            },
            None => {},
        }
    }
}

proof fn lemma_from_policy<'a>(buf: Seq<u8>, at: int, v: ArchiveView, x: Source<'a>, a: &'a Codec, b: &'a Codec)
    requires
        alike(*a, *b, x),
        agreed(v, *a, *b),
        given(from_policy(buf, at, v.version, x), *a, *b),
    ensures
        policy_stage(buf, at, v, reader(x, a)) == policy_stage(buf, at, v, reader(x, b)),
        policy_stage(buf, at, v, reader(x, a)) is Ok ==> from_policy(buf, at, v.version, x) is Some,
        policy_stage(buf, at, v, reader(x, a)) matches Ok(w) ==> agree(*a, *b, grants_strings(w.policy.grants, w.policy.grants.len(), x)),
{
    let first = policy_part(buf, at, v.version, x);
    lemma_given(first, from_inbox(buf, end_of(first), v.version, x), *a, *b);
    match reads::<PolicyFrame>(layout_of(v.version, *x.p), buf, at) {
        Some((policy, q)) => {
            lemma_policy(policy, channel_names(v.channels), v.version, a, b);
            lemma_from_inbox(buf, q, ArchiveView { policy, ..v }, x, a, b);
        },
        None => {},
    }
}

proof fn lemma_from_channels<'a>(buf: Seq<u8>, at: int, v: ArchiveView, x: Source<'a>, a: &'a Codec, b: &'a Codec)
    requires
        alike(*a, *b, x),
        agreed(v, *a, *b),
        given(from_channels(buf, at, v.version, x), *a, *b),
    ensures
        channel_stage(buf, at, v, reader(x, a)) == channel_stage(buf, at, v, reader(x, b)),
        channel_stage(buf, at, v, reader(x, a)) is Ok ==> from_channels(buf, at, v.version, x) is Some,
        channel_stage(buf, at, v, reader(x, a)) matches Ok(w) ==> agree(*a, *b, grants_strings(w.policy.grants, w.policy.grants.len(), x)),
{
    let first = channels_part(buf, at, v.version, x);
    lemma_given(first, from_policy(buf, end_of(first), v.version, x), *a, *b);
    match count_at(buf, at, x.p.channel_max as nat) {
        Some((n, q)) => {
            lemma_channels(buf, q, n, v.version, x, a, b);
            match channels_at(buf, q, n, v.version, reader(x, a)) {
                Ok((channels, routes, q)) => {
                    lemma_from_policy(buf, q, ArchiveView { channels, routes, ..v }, x, a, b);
                },
                Err(_) => {},
            }
        },
        None => {},
    }
}

proof fn lemma_decoded<'a>(buf: Seq<u8>, x: Source<'a>, a: &'a Codec, b: &'a Codec)
    requires
        alike(*a, *b, x),
        given_plain(strings_in(buf, x), *a, *b),
    ensures
        decoded(buf, reader(x, a)) == decoded(buf, reader(x, b)),
        decoded(buf, reader(x, a)) is Ok ==> strings_in(buf, x) is Some,
        decoded(buf, reader(x, a)) matches Ok(w) ==> agree(*a, *b, grants_strings(w.policy.grants, w.policy.grants.len(), x)),
{
    broadcast use group_agree;

    match magic_version(buf) {
        Some(version) => match reads::<CoreFrame>(layout_of(version, *x.p), buf, 6) {
            Some((core, q)) => {
                let core = numbered(core, version);
                lemma_core(core, version, a, b);
                lemma_from_channels(buf, q, core_only(version, core), x, a, b);
            },
            None => {},
        },
        None => {},
    }
}

/// Sealed grants are opened alike.
proof fn lemma_grants(s: Seq<SealedView>, n: nat, x: Source, wa: Grants, wb: Grants)
    requires
        alike(*wa.codec, *wb.codec, x),
        agree(*wa.codec, *wb.codec, grants_strings(s, n, x)),
        wa.keys == x.keys,
        wb == (Grants { codec: wb.codec, ..wa }),
    ensures
        grants_of(s, n, wa) == grants_of(s, n, wb),
    decreases n,
{
    broadcast use group_agree;

    if n > 0 {
        lemma_grants(s, (n - 1) as nat, x, wa, wb);
    }
}

/// The grants of an archive that was read are held alike by codecs that agree on what
/// is listed of it, at any time and whichever relays may be forwarded to.
pub proof fn listed_grants_are_held_alike<'a>(
    buf: Seq<u8>,
    x: Source<'a>,
    a: &'a Codec,
    b: &'a Codec,
    now_unix: u64,
    permitted: &'a Vec<RelayTarget>,
)
    requires
        alike(*a, *b, x),
        strings_in(buf, x) matches Some(list) && agree(*a, *b, list),
        decoded(buf, reader(x, a)) is Ok,
    ensures
        ({
            let s = decoded(buf, reader(x, a))->Ok_0.policy.grants;
            grants_of(s, s.len(), Grants { keys: x.keys, codec: a, now_unix, permitted }) == grants_of(
                s,
                s.len(),
                Grants { keys: x.keys, codec: b, now_unix, permitted },
            )
        }),
{
    lemma_decoded(buf, x, a, b);
    let s = decoded(buf, reader(x, a))->Ok_0.policy.grants;
    lemma_grants(
        s,
        s.len(),
        x,
        Grants { keys: x.keys, codec: a, now_unix, permitted },
        Grants { keys: x.keys, codec: b, now_unix, permitted },
    );
}

/// What an archive is read as depends on the meaning of what is listed of it, and of
/// no other byte string: codecs that agree on the list read it alike. An archive of
/// which nothing is listed is refused by every codec.
pub proof fn only_listed_strings_matter<'a>(buf: Seq<u8>, x: Source<'a>, a: &'a Codec, b: &'a Codec)
    requires
        alike(*a, *b, x),
    ensures
        match strings_in(buf, x) {
            Some(list) => agree(*a, *b, list) ==> decoded(buf, reader(x, a)) == decoded(buf, reader(x, b)),
            None => decoded(buf, reader(x, a)) is Err && decoded(buf, reader(x, b)) is Err,
        },
{
    match strings_in(buf, x) {
        Some(list) => {
            if agree(*a, *b, list) {
                lemma_decoded(buf, x, a, b);
            }
        },
        None => {
            lemma_decoded(buf, x, a, a);
            lemma_decoded(buf, x, b, b);
        },
    }
}

} // verus!
