//! How the parts of an archive stand in bytes.

use vstd::prelude::*;
use vstd::utf8::encode_utf8;
use crate::archive_frame::{AdmissionFrame, AdmissionView, ArchivedChannel, ArchivedChannelView, CentralOwnership, CentralView, ChannelHead, ChannelHeadView, CommitAckFrame, CommitAckView, ControlFrame, ControlView, CoreFrame, CoreView, DeliveryFrame, DeliveryView, ExpectedFrame, ExpectedView, HeadFrame, HeadView, IdFrame, IdView, InboxEntryFrame, InboxEntryView, InboxFrame, InboxFrameView, InviteFrame, InviteView, LaneFrame, LaneView, LedgerFrame, LedgerView, MemberFrame, MemberView, MembershipFrame, MembershipView, MessageFrame, MessageView, NameFrame, NameView, OutboxFrame, OutboxView, OwnedRouteFrame, OwnedRouteView, PeerFrame, PeerRouteFrame, PeerRouteView, PeerView, PendingFrame, PendingView, PolicyFrame, PolicyView, PreparedFrame, PreparedView, ProcessedFrame, ProcessedView, RecipientFrame, RecipientView, RouteEntryFrame, RouteEntryView, SealedFrame, SealedView, SessionFrame, SessionView, ShortIdFrame, ShortIdView, TailFrame, TailView, TrailerFrame, TrailerFrameView, UnroutedFrame, UnroutedView};
use crate::bytes::be_bytes;
use crate::grammar::{render, render_all, Shape, Tree};
use crate::model::{Cell, CellView};
use crate::owner_record::{GroupFrame, GroupFrameView, RecordFrame, RecordFrameView, RenewalFrame, RenewalFrameView};
use crate::record::{render_then, rendered, since, trees, where_present, Framed, Layout};

verus! {

/// A number in so many bytes.
pub open spec fn num(x: nat, width: nat) -> Seq<u8> {
    be_bytes(x, width)
}

/// A length in so many bytes, then that many bytes.
pub open spec fn sized(s: Seq<u8>, width: nat) -> Seq<u8> {
    num(s.len(), width) + s
}

/// Something that only some versions write.
pub open spec fn only(written: bool, s: Seq<u8>) -> Seq<u8> {
    if written {
        s
    } else {
        Seq::empty()
    }
}

/// A byte of one and something, or a byte of nought.
pub open spec fn optional(o: Option<Seq<u8>>) -> Seq<u8> {
    match o {
        Some(s) => seq![1u8] + s,
        None => seq![0u8],
    }
}

/// A byte of one for yes and of two for no.
pub open spec fn yes_or_no(b: bool) -> Seq<u8> {
    if b {
        seq![1u8]
    } else {
        seq![2u8]
    }
}

/// The first `n` items, one after the other.
pub open spec fn in_a_row<R: Framed>(s: Seq<R::V>, n: nat, layout: Layout) -> Seq<u8>
    decreases n,
{
    if n == 0 {
        Seq::empty()
    } else {
        in_a_row::<R>(s, (n - 1) as nat, layout) + rendered::<R>(s[n - 1], layout)
    }
}

/// A four-byte count, then so many items.
pub open spec fn listed<R: Framed>(s: Seq<R::V>, layout: Layout) -> Seq<u8> {
    num(s.len(), 4) + in_a_row::<R>(s, s.len(), layout)
}

/// Numbers are written with their largest part first, in exactly so many bytes.
pub proof fn numbers_begin_with_their_largest_part(x: u64)
    ensures
        be_bytes(x as nat, 8) == seq![
            (x / 0x100_0000_0000_0000 % 256) as u8,
            (x / 0x1_0000_0000_0000 % 256) as u8,
            (x / 0x100_0000_0000 % 256) as u8,
            (x / 0x1_0000_0000 % 256) as u8,
            (x / 0x100_0000 % 256) as u8,
            (x / 0x1_0000 % 256) as u8,
            (x / 0x100 % 256) as u8,
            (x % 256) as u8,
        ],
        x < 0x1_0000_0000 ==> be_bytes(x as nat, 4) == seq![
            (x / 0x100_0000) as u8,
            (x / 0x1_0000 % 256) as u8,
            (x / 0x100 % 256) as u8,
            (x % 256) as u8,
        ],
        x < 0x1_0000 ==> be_bytes(x as nat, 2) == seq![(x / 0x100) as u8, (x % 256) as u8],
        x < 0x100 ==> be_bytes(x as nat, 1) == seq![x as u8],
{
    reveal_with_fuel(be_bytes, 9);
    assert(be_bytes(x as nat, 8) =~= seq![
        (x / 0x100_0000_0000_0000 % 256) as u8,
        (x / 0x1_0000_0000_0000 % 256) as u8,
        (x / 0x100_0000_0000 % 256) as u8,
        (x / 0x1_0000_0000 % 256) as u8,
        (x / 0x100_0000 % 256) as u8,
        (x / 0x1_0000 % 256) as u8,
        (x / 0x100 % 256) as u8,
        (x % 256) as u8,
    ]);
    if x < 0x1_0000_0000 {
        assert(be_bytes(x as nat, 4) =~= seq![
            (x / 0x100_0000) as u8,
            (x / 0x1_0000 % 256) as u8,
            (x / 0x100 % 256) as u8,
            (x % 256) as u8,
        ]);
    }
    if x < 0x1_0000 {
        assert(be_bytes(x as nat, 2) =~= seq![(x / 0x100) as u8, (x % 256) as u8]);
    }
    if x < 0x100 {
        assert(be_bytes(x as nat, 1) =~= seq![x as u8]);
    }
}

proof fn lemma_row<R: Framed>(s: Seq<R::V>, n: nat, layout: Layout)
    requires
        n <= s.len(),
    ensures
        render_all(R::shape(layout), trees::<R>(s, layout), n) == in_a_row::<R>(s, n, layout),
    decreases n,
{
    if n > 0 {
        lemma_row::<R>(s, (n - 1) as nat, layout);
        assert(trees::<R>(s, layout)[n - 1] == R::tree(s[n - 1], layout));
    }
}

proof fn lemma_listed<R: Framed>(s: Seq<R::V>, maximum: nat, layout: Layout)
    ensures
        render(Shape::Many(maximum, Box::new(R::shape(layout))), Tree::Many(trees::<R>(s, layout))) == listed::<R>(s, layout),
{
    lemma_row::<R>(s, s.len(), layout);
    assert(trees::<R>(s, layout).len() == s.len());
}

/// A cell: its version, type and flags in a byte each, its counter in two, and its
/// payload.
pub proof fn cells_stand_so(v: CellView, layout: Layout)
    ensures
        rendered::<Cell>(v, layout) == num(v.version as nat, 1)
            + num(v.raw_type as nat, 1)
            + num(v.flags as nat, 1)
            + num(v.round_ctr as nat, 2)
            + sized(v.payload, 4),
{
    broadcast use render_then;

    reveal_with_fuel(render, 3);
    reveal(since);
    reveal(where_present);
    assert(rendered::<Cell>(v, layout) =~= num(v.version as nat, 1)
        + num(v.raw_type as nat, 1)
        + num(v.flags as nat, 1)
        + num(v.round_ctr as nat, 2)
        + sized(v.payload, 4));
}

/// A session: the peer, from the fifth version on the time left to confirm it, and the
/// sealed state.
pub proof fn sessions_stand_so(v: SessionView, layout: Layout)
    ensures
        rendered::<SessionFrame>(v, layout) == sized(v.peer, 2)
            + only(layout.version >= 5, match v.unconfirmed {
                Some(ms) => seq![1u8] + num(ms as nat, 8),
                None => seq![2u8],
            })
            + sized(v.sealed, 4),
{
    broadcast use render_then;

    reveal_with_fuel(render, 3);
    reveal(since);
    reveal(where_present);
    assert(rendered::<SessionFrame>(v, layout) =~= sized(v.peer, 2)
        + only(layout.version >= 5, match v.unconfirmed {
            Some(ms) => seq![1u8] + num(ms as nat, 8),
            None => seq![2u8],
        })
        + sized(v.sealed, 4));
}

/// A peer's card: the peer, the card, and from the sixth version on its generation.
pub proof fn cards_stand_so(v: PeerRouteView, layout: Layout)
    ensures
        rendered::<PeerRouteFrame>(v, layout) == sized(v.peer, 2)
            + sized(v.card, 4)
            + only(layout.version >= 6, num(v.generation as nat, 8)),
{
    broadcast use render_then;

    reveal_with_fuel(render, 3);
    reveal(since);
    reveal(where_present);
    assert(rendered::<PeerRouteFrame>(v, layout) =~= sized(v.peer, 2)
        + sized(v.card, 4)
        + only(layout.version >= 6, num(v.generation as nat, 8)));
}

/// A delivery: the card of the peer, before the sixth version the card of the relay,
/// and the cells.
pub proof fn deliveries_stand_so(v: DeliveryView, layout: Layout)
    ensures
        rendered::<DeliveryFrame>(v, layout) == sized(v.card, 4)
            + only(layout.version < 6, sized(v.relay, 4))
            + listed::<Cell>(v.cells, layout),
{
    broadcast use render_then;

    reveal_with_fuel(render, 3);
    reveal(since);
    reveal(where_present);
    lemma_listed::<Cell>(v.cells, 2, layout);
    assert(rendered::<DeliveryFrame>(v, layout) =~= sized(v.card, 4)
        + only(layout.version < 6, sized(v.relay, 4))
        + listed::<Cell>(v.cells, layout));
}

/// A message that waits: its identifier, the time until it is tried and until it
/// expires, then as versions came to keep them its number, its record and whether an
/// application waits for it, and its delivery.
pub proof fn waiting_messages_stand_so(v: PendingView, layout: Layout)
    ensures
        rendered::<PendingFrame>(v, layout) == v.message_id@
            + num(v.retry_ms as nat, 8)
            + num(v.expiry_ms as nat, 8)
            + only(layout.version >= 5, num(v.sequence as nat, 8))
            + only(layout.version >= 5, optional(match v.logical {
                Some(b) => Some(sized(b, 4)),
                None => None,
            }))
            + only(layout.version >= 6, if v.application_event {
                seq![1u8]
            } else {
                seq![0u8]
            })
            + rendered::<DeliveryFrame>(v.delivery, layout),
{
    broadcast use render_then;

    reveal_with_fuel(render, 3);
    reveal(since);
    reveal(where_present);
    assert(rendered::<PendingFrame>(v, layout) =~= v.message_id@
        + num(v.retry_ms as nat, 8)
        + num(v.expiry_ms as nat, 8)
        + only(layout.version >= 5, num(v.sequence as nat, 8))
        + only(layout.version >= 5, optional(match v.logical {
            Some(b) => Some(sized(b, 4)),
            None => None,
        }))
        + only(layout.version >= 6, if v.application_event {
            seq![1u8]
        } else {
            seq![0u8]
        })
        + rendered::<DeliveryFrame>(v.delivery, layout));
}

/// A frame that was taken: whose, its counter, its digest, and the answer to it.
pub proof fn taken_frames_stand_so(v: ProcessedView, layout: Layout)
    ensures
        rendered::<ProcessedFrame>(v, layout) == sized(v.peer, 2)
            + num(v.counter as nat, 8)
            + v.frame_hash@
            + rendered::<DeliveryFrame>(v.delivery, layout),
{
    broadcast use render_then;

    reveal_with_fuel(render, 3);
    reveal(since);
    reveal(where_present);
    assert(rendered::<ProcessedFrame>(v, layout) =~= sized(v.peer, 2)
        + num(v.counter as nat, 8)
        + v.frame_hash@
        + rendered::<DeliveryFrame>(v.delivery, layout));
}

/// The head: when the archive was written, from the fifth version on the next number,
/// and from the sixth on the generation of the node's own card.
pub proof fn heads_stand_so(v: HeadView, layout: Layout)
    ensures
        rendered::<HeadFrame>(v, layout) == num(v.exported_ms as nat, 8)
            + only(layout.version >= 5, num(v.next_direct_sequence as nat, 8))
            + only(layout.version >= 6, num(v.local_contact_generation as nat, 8)),
{
    broadcast use render_then;

    reveal_with_fuel(render, 3);
    reveal(since);
    reveal(where_present);
    assert(rendered::<HeadFrame>(v, layout) =~= num(v.exported_ms as nat, 8)
        + only(layout.version >= 5, num(v.next_direct_sequence as nat, 8))
        + only(layout.version >= 6, num(v.local_contact_generation as nat, 8)));
}

/// The direct part: the head, sessions, cards, messages that wait, acknowledgements,
/// and frames that were taken.
pub proof fn the_direct_part_stands_so(v: CoreView, layout: Layout)
    ensures
        rendered::<CoreFrame>(v, layout) == rendered::<HeadFrame>(v.head, layout)
            + listed::<SessionFrame>(v.sessions, layout)
            + listed::<PeerRouteFrame>(v.peer_routes, layout)
            + listed::<PendingFrame>(v.pending, layout)
            + listed::<DeliveryFrame>(v.acks, layout)
            + listed::<ProcessedFrame>(v.processed, layout),
{
    broadcast use render_then;

    reveal_with_fuel(render, 2);
    reveal(since);
    reveal(where_present);
    lemma_listed::<SessionFrame>(v.sessions, 8192, layout);
    lemma_listed::<PeerRouteFrame>(v.peer_routes, 8192, layout);
    lemma_listed::<PendingFrame>(v.pending, 8192, layout);
    lemma_listed::<DeliveryFrame>(v.acks, 8192, layout);
    lemma_listed::<ProcessedFrame>(v.processed, 8192, layout);
    assert(rendered::<CoreFrame>(v, layout) =~= rendered::<HeadFrame>(v.head, layout)
        + listed::<SessionFrame>(v.sessions, layout)
        + listed::<PeerRouteFrame>(v.peer_routes, layout)
        + listed::<PendingFrame>(v.pending, layout)
        + listed::<DeliveryFrame>(v.acks, layout)
        + listed::<ProcessedFrame>(v.processed, layout));
}

/// The head of a channel: its name, from the third version on whether it is public,
/// whether the node owns it, and its role.
pub proof fn channel_heads_stand_so(v: ChannelHeadView, layout: Layout)
    ensures
        rendered::<ChannelHead>(v, layout) == sized(encode_utf8(v.name), 2)
            + only(layout.version >= 3, yes_or_no(v.public))
            + yes_or_no(v.owner)
            + sized(v.blob, 4),
{
    broadcast use render_then;

    reveal_with_fuel(render, 3);
    reveal(since);
    reveal(where_present);
    assert(rendered::<ChannelHead>(v, layout) =~= sized(encode_utf8(v.name), 2)
        + only(layout.version >= 3, yes_or_no(v.public))
        + yes_or_no(v.owner)
        + sized(v.blob, 4));
}

/// A recipient: who, and at which route.
pub proof fn recipients_stand_so(v: RecipientView, layout: Layout)
    ensures
        rendered::<RecipientFrame>(v, layout) == v.identity@
            + sized(v.route, 4),
{
    broadcast use render_then;

    reveal_with_fuel(render, 3);
    reveal(since);
    reveal(where_present);
    assert(rendered::<RecipientFrame>(v, layout) =~= v.identity@
        + sized(v.route, 4));
}

/// Those expected to answer, then those who did.
pub proof fn answers_stand_so(v: ExpectedView, layout: Layout)
    ensures
        rendered::<ExpectedFrame>(v, layout) == listed::<RecipientFrame>(v.expected, layout)
            + listed::<IdFrame>(v.acknowledged, layout),
{
    broadcast use render_then;

    reveal_with_fuel(render, 3);
    reveal(since);
    reveal(where_present);
    lemma_listed::<RecipientFrame>(v.expected, 1024, layout);
    lemma_listed::<IdFrame>(v.acknowledged, 1024, layout);
    assert(rendered::<ExpectedFrame>(v, layout) =~= listed::<RecipientFrame>(v.expected, layout)
        + listed::<IdFrame>(v.acknowledged, layout));
}

/// A member: the name, and the route.
pub proof fn members_stand_so(v: MemberView, layout: Layout)
    ensures
        rendered::<MemberFrame>(v, layout) == sized(encode_utf8(v.member), 2)
            + sized(v.route, 4),
{
    broadcast use render_then;

    reveal_with_fuel(render, 3);
    reveal(since);
    reveal(where_present);
    assert(rendered::<MemberFrame>(v, layout) =~= sized(encode_utf8(v.member), 2)
        + sized(v.route, 4));
}

/// A channel message: its identifier, its text, and its recipients.
pub proof fn channel_messages_stand_so(v: MessageView, layout: Layout)
    ensures
        rendered::<MessageFrame>(v, layout) == v.message_id@
            + sized(v.wire, 4)
            + rendered::<ExpectedFrame>(v.recipients, layout),
{
    broadcast use render_then;

    reveal_with_fuel(render, 3);
    reveal(since);
    reveal(where_present);
    assert(rendered::<MessageFrame>(v, layout) =~= v.message_id@
        + sized(v.wire, 4)
        + rendered::<ExpectedFrame>(v.recipients, layout));
}

/// A membership commit: its identifier, its epoch, its text, and its recipients.
pub proof fn commits_stand_so(v: MembershipView, layout: Layout)
    ensures
        rendered::<MembershipFrame>(v, layout) == v.commit_id@
            + num(v.epoch as nat, 8)
            + sized(v.commit, 4)
            + rendered::<ExpectedFrame>(v.recipients, layout),
{
    broadcast use render_then;

    reveal_with_fuel(render, 3);
    reveal(since);
    reveal(where_present);
    assert(rendered::<MembershipFrame>(v, layout) =~= v.commit_id@
        + num(v.epoch as nat, 8)
        + sized(v.commit, 4)
        + rendered::<ExpectedFrame>(v.recipients, layout));
}

/// Control traffic: the route, and the text.
pub proof fn control_traffic_stands_so(v: ControlView, layout: Layout)
    ensures
        rendered::<ControlFrame>(v, layout) == sized(v.route, 4)
            + sized(v.wire, 4),
{
    broadcast use render_then;

    reveal_with_fuel(render, 3);
    reveal(since);
    reveal(where_present);
    assert(rendered::<ControlFrame>(v, layout) =~= sized(v.route, 4)
        + sized(v.wire, 4));
}

/// An admission: the request, the name, the pseudonym, and the welcome.
pub proof fn admissions_stand_so(v: AdmissionView, layout: Layout)
    ensures
        rendered::<AdmissionFrame>(v, layout) == v.request_id@
            + sized(encode_utf8(v.name), 2)
            + v.pseudonym@
            + sized(v.welcome, 4),
{
    broadcast use render_then;

    reveal_with_fuel(render, 3);
    reveal(since);
    reveal(where_present);
    assert(rendered::<AdmissionFrame>(v, layout) =~= v.request_id@
        + sized(encode_utf8(v.name), 2)
        + v.pseudonym@
        + sized(v.welcome, 4));
}

/// The acknowledgement of a commit: of which, the route, and the text.
pub proof fn commit_acknowledgements_stand_so(v: CommitAckView, layout: Layout)
    ensures
        rendered::<CommitAckFrame>(v, layout) == v.message_id@
            + sized(v.route, 4)
            + sized(v.wire, 4),
{
    broadcast use render_then;

    reveal_with_fuel(render, 3);
    reveal(since);
    reveal(where_present);
    assert(rendered::<CommitAckFrame>(v, layout) =~= v.message_id@
        + sized(v.route, 4)
        + sized(v.wire, 4));
}

/// An acknowledgement without a route: of which message, to whom, and the text.
pub proof fn unrouted_acknowledgements_stand_so(v: UnroutedView, layout: Layout)
    ensures
        rendered::<UnroutedFrame>(v, layout) == v.original_id@
            + v.sender@
            + sized(v.wire, 4),
{
    broadcast use render_then;

    reveal_with_fuel(render, 3);
    reveal(since);
    reveal(where_present);
    assert(rendered::<UnroutedFrame>(v, layout) =~= v.original_id@
        + v.sender@
        + sized(v.wire, 4));
}

/// An invite: its identifier, its secret, its expiry, and who redeemed it, if anyone
/// did.
pub proof fn invites_stand_so(v: InviteView, layout: Layout)
    ensures
        rendered::<InviteFrame>(v, layout) == v.invite_id@
            + v.secret@
            + num(v.expiry as nat, 8)
            + optional(match v.consumed {
                Some(id) => Some(id@),
                None => None,
            }),
{
    broadcast use render_then;

    reveal_with_fuel(render, 3);
    reveal(since);
    reveal(where_present);
    assert(rendered::<InviteFrame>(v, layout) =~= v.invite_id@
        + v.secret@
        + num(v.expiry as nat, 8)
        + optional(match v.consumed {
            Some(id) => Some(id@),
            None => None,
        }));
}

/// The outbox of a channel: the node's own name, the directory, the messages that
/// wait, and the commit that waits.
pub proof fn outboxes_stand_so(v: OutboxView, layout: Layout)
    ensures
        rendered::<OutboxFrame>(v, layout) == optional(match v.own_name {
                Some(s) => Some(sized(encode_utf8(s), 2)),
                None => None,
            })
            + listed::<MemberFrame>(v.directory, layout)
            + listed::<MessageFrame>(v.messages, layout)
            + optional(match v.membership {
                Some(m) => Some(rendered::<MembershipFrame>(m, layout)),
                None => None,
            }),
{
    broadcast use render_then;

    reveal_with_fuel(render, 3);
    reveal(since);
    reveal(where_present);
    lemma_listed::<MemberFrame>(v.directory, 1024, layout);
    lemma_listed::<MessageFrame>(v.messages, 64, layout);
    assert(rendered::<OutboxFrame>(v, layout) =~= optional(match v.own_name {
            Some(s) => Some(sized(encode_utf8(s), 2)),
            None => None,
        })
        + listed::<MemberFrame>(v.directory, layout)
        + listed::<MessageFrame>(v.messages, layout)
        + optional(match v.membership {
            Some(m) => Some(rendered::<MembershipFrame>(m, layout)),
            None => None,
        }));
}

/// The ledger of a channel: control traffic, admissions, removals, acknowledgements of
/// commits, those without a route, and from the tenth version on invites.
pub proof fn ledgers_stand_so(v: LedgerView, layout: Layout)
    ensures
        rendered::<LedgerFrame>(v, layout) == listed::<ControlFrame>(v.control, layout)
            + listed::<AdmissionFrame>(v.admissions, layout)
            + listed::<NameFrame>(v.removals, layout)
            + listed::<CommitAckFrame>(v.commit_acks, layout)
            + listed::<UnroutedFrame>(v.unrouted, layout)
            + only(layout.version >= 10, listed::<InviteFrame>(v.invites, layout)),
{
    broadcast use render_then;

    reveal_with_fuel(render, 2);
    reveal(since);
    reveal(where_present);
    lemma_listed::<ControlFrame>(v.control, 64, layout);
    lemma_listed::<AdmissionFrame>(v.admissions, 64, layout);
    lemma_listed::<NameFrame>(v.removals, 1024, layout);
    lemma_listed::<CommitAckFrame>(v.commit_acks, 64, layout);
    lemma_listed::<UnroutedFrame>(v.unrouted, layout.channel_ack_limit as nat, layout);
    lemma_listed::<InviteFrame>(v.invites, 64, layout);
    assert(rendered::<LedgerFrame>(v, layout) =~= listed::<ControlFrame>(v.control, layout)
        + listed::<AdmissionFrame>(v.admissions, layout)
        + listed::<NameFrame>(v.removals, layout)
        + listed::<CommitAckFrame>(v.commit_acks, layout)
        + listed::<UnroutedFrame>(v.unrouted, layout)
        + only(layout.version >= 10, listed::<InviteFrame>(v.invites, layout)));
}

/// A channel: its head, its outbox, and its ledger.
pub proof fn channels_stand_so(v: ArchivedChannelView, layout: Layout)
    ensures
        rendered::<ArchivedChannel>(v, layout) == rendered::<ChannelHead>(v.head, layout)
            + rendered::<OutboxFrame>(v.body.outbox, layout)
            + rendered::<LedgerFrame>(v.body.ledger, layout),
{
    broadcast use render_then;

    reveal_with_fuel(render, 2);
    reveal(since);
    reveal(where_present);
    assert(rendered::<ArchivedChannel>(v, layout) =~= rendered::<ChannelHead>(v.head, layout)
        + rendered::<OutboxFrame>(v.body.outbox, layout)
        + rendered::<LedgerFrame>(v.body.ledger, layout));
}

/// The policy: from the seventh version on the peers and the channels opted in for, and
/// from the ninth on the sealed grants.
pub proof fn policies_stand_so(v: PolicyView, layout: Layout)
    ensures
        rendered::<PolicyFrame>(v, layout) == only(layout.version >= 7, listed::<PeerFrame>(v.peers, layout))
            + only(layout.version >= 7, listed::<NameFrame>(v.channels, layout))
            + only(layout.version >= 9, listed::<SealedFrame>(v.grants, layout)),
{
    broadcast use render_then;

    reveal_with_fuel(render, 2);
    reveal(since);
    reveal(where_present);
    lemma_listed::<PeerFrame>(v.peers, 8192, layout);
    lemma_listed::<NameFrame>(v.channels, layout.channel_max as nat, layout);
    lemma_listed::<SealedFrame>(v.grants, layout.forward_grants_max as nat, layout);
    assert(rendered::<PolicyFrame>(v, layout) =~= only(layout.version >= 7, listed::<PeerFrame>(v.peers, layout))
        + only(layout.version >= 7, listed::<NameFrame>(v.channels, layout))
        + only(layout.version >= 9, listed::<SealedFrame>(v.grants, layout)));
}

/// A prepared join: its number, its name, its group, and its route.
pub proof fn prepared_joins_stand_so(v: PreparedView, layout: Layout)
    ensures
        rendered::<PreparedFrame>(v, layout) == num(v.id as nat, 8)
            + sized(encode_utf8(v.display), 2)
            + sized(v.mls, 4)
            + sized(v.route, 4),
{
    broadcast use render_then;

    reveal_with_fuel(render, 3);
    reveal(since);
    reveal(where_present);
    assert(rendered::<PreparedFrame>(v, layout) =~= num(v.id as nat, 8)
        + sized(encode_utf8(v.display), 2)
        + sized(v.mls, 4)
        + sized(v.route, 4));
}

/// A message for the applications: its number, whose it is, its identifier, when it
/// came, and its body.
pub proof fn inbox_messages_stand_so(v: InboxEntryView, layout: Layout)
    ensures
        rendered::<InboxEntryFrame>(v, layout) == num(v.sequence as nat, 8)
            + sized(v.peer, 2)
            + v.message_id@
            + num(v.received_at_unix as nat, 8)
            + sized(v.body, 4),
{
    broadcast use render_then;

    reveal_with_fuel(render, 3);
    reveal(since);
    reveal(where_present);
    assert(rendered::<InboxEntryFrame>(v, layout) =~= num(v.sequence as nat, 8)
        + sized(v.peer, 2)
        + v.message_id@
        + num(v.received_at_unix as nat, 8)
        + sized(v.body, 4));
}

/// The inbox: the next number, and the messages.
pub proof fn inboxes_stand_so(v: InboxFrameView, layout: Layout)
    ensures
        rendered::<InboxFrame>(v, layout) == num(v.next_sequence as nat, 8)
            + listed::<InboxEntryFrame>(v.entries, layout),
{
    broadcast use render_then;

    reveal_with_fuel(render, 3);
    reveal(since);
    reveal(where_present);
    lemma_listed::<InboxEntryFrame>(v.entries, layout.application_inbox_limit as nat, layout);
    assert(rendered::<InboxFrame>(v, layout) =~= num(v.next_sequence as nat, 8)
        + listed::<InboxEntryFrame>(v.entries, layout));
}

/// Central ownership: the primary parts, the scoped parts, and the digest of the
/// policy.
pub proof fn ownership_stands_so(v: CentralView, layout: Layout)
    ensures
        rendered::<CentralOwnership>(v, layout) == listed::<ShortIdFrame>(v.primary, layout)
            + listed::<ShortIdFrame>(v.scoped, layout)
            + v.policy_hash@,
{
    broadcast use render_then;

    reveal_with_fuel(render, 3);
    reveal(since);
    reveal(where_present);
    lemma_listed::<ShortIdFrame>(v.primary, 64, layout);
    lemma_listed::<ShortIdFrame>(v.scoped, 64, layout);
    assert(rendered::<CentralOwnership>(v, layout) =~= listed::<ShortIdFrame>(v.primary, layout)
        + listed::<ShortIdFrame>(v.scoped, layout)
        + v.policy_hash@);
}

/// A group of the owner's record: its role, its three times, and its two cards.
pub proof fn groups_stand_so(v: GroupFrameView, layout: Layout)
    ensures
        rendered::<GroupFrame>(v, layout) == num(v.role as nat, 1)
            + num(v.deadline_ms as nat, 8)
            + num(v.action_ms as nat, 8)
            + num(v.receive_until_ms as nat, 8)
            + sized(v.card, 4)
            + sized(v.original, 4),
{
    broadcast use render_then;

    reveal_with_fuel(render, 3);
    assert(rendered::<GroupFrame>(v, layout) =~= num(v.role as nat, 1)
        + num(v.deadline_ms as nat, 8)
        + num(v.action_ms as nat, 8)
        + num(v.receive_until_ms as nat, 8)
        + sized(v.card, 4)
        + sized(v.original, 4));
}

/// The owner's record: its version, when it was taken and when its aliases were
/// activated, the groups, and the renewals, each by its queue.
pub proof fn records_stand_so(v: RecordFrameView, renewal: RenewalFrameView, layout: Layout)
    ensures
        rendered::<RecordFrame>(v, layout) == num(v.version as nat, 1)
            + num(v.captured_ms as nat, 8)
            + num(v.activated_ms as nat, 8)
            + listed::<GroupFrame>(v.groups, layout)
            + listed::<RenewalFrame>(v.renewals, layout),
        rendered::<RenewalFrame>(renewal, layout) == renewal.queue@ + sized(renewal.wire, 4),
{
    broadcast use render_then;

    reveal_with_fuel(render, 3);
    lemma_listed::<GroupFrame>(v.groups, 16, layout);
    lemma_listed::<RenewalFrame>(v.renewals, 32, layout);
    assert(rendered::<RecordFrame>(v, layout) =~= num(v.version as nat, 1)
        + num(v.captured_ms as nat, 8)
        + num(v.activated_ms as nat, 8)
        + listed::<GroupFrame>(v.groups, layout)
        + listed::<RenewalFrame>(v.renewals, layout));
    assert(rendered::<RenewalFrame>(renewal, layout) =~= renewal.queue@ + sized(renewal.wire, 4));
}

/// A lane of a route: its three capabilities, its limits, its path, and its lease.
pub proof fn lanes_stand_so(v: LaneView, layout: Layout)
    ensures
        rendered::<LaneFrame>(v, layout) == v.push@
            + v.sub@
            + v.admin@
            + num(v.max_queue_cells as nat, 2)
            + num(v.max_queue_bytes as nat, 8)
            + sized(encode_utf8(v.create_path), 2)
            + rendered::<Cell>(v.lease_create, layout),
{
    broadcast use render_then;

    reveal_with_fuel(render, 3);
    reveal(since);
    reveal(where_present);
    assert(rendered::<LaneFrame>(v, layout) =~= v.push@
        + v.sub@
        + v.admin@
        + num(v.max_queue_cells as nat, 2)
        + num(v.max_queue_bytes as nat, 8)
        + sized(encode_utf8(v.create_path), 2)
        + rendered::<Cell>(v.lease_create, layout));
}

/// An own route: its public part, the lane for data, and the lane for control.
pub proof fn own_routes_stand_so(v: OwnedRouteView, layout: Layout)
    ensures
        rendered::<OwnedRouteFrame>(v, layout) == sized(v.public, 4)
            + rendered::<LaneFrame>(v.data, layout)
            + rendered::<LaneFrame>(v.control, layout),
{
    broadcast use render_then;

    reveal_with_fuel(render, 2);
    reveal(since);
    reveal(where_present);
    assert(rendered::<OwnedRouteFrame>(v, layout) =~= sized(v.public, 4)
        + rendered::<LaneFrame>(v.data, layout)
        + rendered::<LaneFrame>(v.control, layout));
}

/// The own routes of a channel: its name, the sealed route in force, and the one before
/// it.
pub proof fn route_entries_stand_so(v: RouteEntryView, layout: Layout)
    ensures
        rendered::<RouteEntryFrame>(v, layout) == sized(encode_utf8(v.name), 2)
            + optional(match v.current {
                Some(b) => Some(sized(b, 4)),
                None => None,
            })
            + optional(match v.previous {
                Some(b) => Some(sized(b, 4)),
                None => None,
            }),
{
    broadcast use render_then;

    reveal_with_fuel(render, 3);
    reveal(since);
    reveal(where_present);
    assert(rendered::<RouteEntryFrame>(v, layout) =~= sized(encode_utf8(v.name), 2)
        + optional(match v.current {
            Some(b) => Some(sized(b, 4)),
            None => None,
        })
        + optional(match v.previous {
            Some(b) => Some(sized(b, 4)),
            None => None,
        }));
}

/// The tail: the sealed inbox, the next number of a join, the prepared joins, the
/// transport identity, and central ownership.
pub proof fn tails_stand_so(v: TailView, layout: Layout)
    ensures
        rendered::<TailFrame>(v, layout) == sized(v.inbox, 4)
            + num(v.next_prep_id as nat, 8)
            + listed::<PreparedFrame>(v.prepared, layout)
            + sized(v.tls_identity, 4)
            + sized(v.central, 4),
{
    broadcast use render_then;

    reveal_with_fuel(render, 3);
    reveal(since);
    reveal(where_present);
    lemma_listed::<PreparedFrame>(v.prepared, 64, layout);
    assert(rendered::<TailFrame>(v, layout) =~= sized(v.inbox, 4)
        + num(v.next_prep_id as nat, 8)
        + listed::<PreparedFrame>(v.prepared, layout)
        + sized(v.tls_identity, 4)
        + sized(v.central, 4));
}

/// The trailer: ownership by this machine, the owner's record, the routing directory,
/// the own routes, and from the twenty-first version on the receipts.
pub proof fn trailers_stand_so(v: TrailerFrameView, layout: Layout)
    ensures
        rendered::<TrailerFrame>(v, layout) == sized(v.machine, 4)
            + sized(v.owner, 4)
            + sized(v.directory, 4)
            + listed::<RouteEntryFrame>(v.routes, layout)
            + only(layout.version >= 21, sized(v.receipts, 4)),
{
    broadcast use render_then;

    reveal_with_fuel(render, 3);
    reveal(since);
    reveal(where_present);
    lemma_listed::<RouteEntryFrame>(v.routes, 1024, layout);
    assert(rendered::<TrailerFrame>(v, layout) =~= sized(v.machine, 4)
        + sized(v.owner, 4)
        + sized(v.directory, 4)
        + listed::<RouteEntryFrame>(v.routes, layout)
        + only(layout.version >= 21, sized(v.receipts, 4)));
}

/// Small items stand as what they are: identifiers as their bytes, names and peers with
/// a two-byte length, sealed values with a four-byte one.
pub proof fn small_items_stand_so(id: [u8; 32], short: [u8; 16], name: Seq<char>, bytes: Seq<u8>, layout: Layout)
    ensures
        rendered::<IdFrame>(IdView { id }, layout) == id@,
        rendered::<ShortIdFrame>(ShortIdView { id: short }, layout) == short@,
        rendered::<NameFrame>(NameView { name }, layout) == sized(encode_utf8(name), 2),
        rendered::<PeerFrame>(PeerView { peer: bytes }, layout) == sized(bytes, 2),
        rendered::<SealedFrame>(SealedView { sealed: bytes }, layout) == sized(bytes, 4),
{
}

/// What a version does not keep is read as what stands for it: no time to confirm,
/// the first generation, no relay by name, messages without number or record that an
/// application waits for, private channels, and no policy, grants or invites.
pub proof fn what_is_not_kept_has_a_stand_in(
    layout: Layout,
    session: SessionView,
    card: PeerRouteView,
    pending: PendingView,
    head: HeadView,
    channel: ChannelHeadView,
    ledger: LedgerView,
    policy: PolicyView,
    trailer: TrailerFrameView,
)
    ensures
        SessionFrame::plain(session, layout) && layout.version < 5 ==> session.unconfirmed is None,
        PeerRouteFrame::plain(card, layout) && layout.version < 6 ==> card.generation == 0,
        PendingFrame::plain(pending, layout) && layout.version < 5 ==> pending.sequence == 0 && pending.logical is None,
        PendingFrame::plain(pending, layout) && layout.version < 6 ==> pending.application_event,
        PendingFrame::plain(pending, layout) && layout.version >= 6 ==> pending.delivery.relay.len() == 0,
        HeadFrame::plain(head, layout) && layout.version < 5 ==> head.next_direct_sequence == 1,
        HeadFrame::plain(head, layout) && layout.version < 6 ==> head.local_contact_generation == 1,
        ChannelHead::plain(channel, layout) && layout.version < 3 ==> !channel.public,
        LedgerFrame::plain(ledger, layout) && layout.version < 10 ==> ledger.invites.len() == 0,
        PolicyFrame::plain(policy, layout) && layout.version < 7 ==> policy.peers.len() == 0 && policy.channels.len() == 0,
        PolicyFrame::plain(policy, layout) && layout.version < 9 ==> policy.grants.len() == 0,
        TrailerFrame::plain(trailer, layout) && layout.version < 21 ==> trailer.receipts.len() == 0,
{
}

/// Lists are held to their limits.
pub proof fn lists_are_held_to_their_limits(
    layout: Layout,
    core: CoreView,
    outbox: OutboxView,
    ledger: LedgerView,
    policy: PolicyView,
    tail: TailView,
    trailer: TrailerFrameView,
    inbox: InboxFrameView,
    recipients: ExpectedView,
    delivery: DeliveryView,
    central: CentralView,
)
    ensures
        CoreFrame::bounded(core, layout) ==> core.sessions.len() <= 8192 && core.peer_routes.len() <= 8192 && core.pending.len() <= 8192
            && core.acks.len() <= 8192 && core.processed.len() <= 8192,
        OutboxFrame::bounded(outbox, layout) ==> outbox.directory.len() <= 1024 && outbox.messages.len() <= 64,
        LedgerFrame::bounded(ledger, layout) ==> ledger.control.len() <= 64 && ledger.admissions.len() <= 64 && ledger.removals.len() <= 1024
            && ledger.commit_acks.len() <= 64 && ledger.unrouted.len() <= layout.channel_ack_limit && ledger.invites.len() <= 64,
        PolicyFrame::bounded(policy, layout) <==> policy.peers.len() <= 8192 && policy.channels.len() <= layout.channel_max && policy.grants.len()
            <= layout.forward_grants_max,
        TailFrame::bounded(tail, layout) <==> tail.prepared.len() <= 64,
        TrailerFrame::bounded(trailer, layout) <==> trailer.routes.len() <= 1024,
        InboxFrame::bounded(inbox, layout) <==> inbox.entries.len() <= layout.application_inbox_limit,
        ExpectedFrame::bounded(recipients, layout) <==> recipients.expected.len() <= 1024 && recipients.acknowledged.len() <= 1024,
        DeliveryFrame::bounded(delivery, layout) <==> delivery.cells.len() <= 2,
        CentralOwnership::bounded(central, layout) <==> central.primary.len() <= 64 && central.scoped.len() <= 64,
        CoreFrame::bounded(core, layout) <== core.sessions.len() <= 8192 && core.peer_routes.len() <= 8192 && core.pending.len() <= 8192
            && core.acks.len() <= 8192 && core.processed.len() <= 8192 && (forall|i: int|
            0 <= i < core.pending.len() ==> (#[trigger] core.pending[i]).delivery.cells.len() <= 2) && (forall|i: int|
            0 <= i < core.acks.len() ==> (#[trigger] core.acks[i]).cells.len() <= 2) && (forall|i: int|
            0 <= i < core.processed.len() ==> (#[trigger] core.processed[i]).delivery.cells.len() <= 2),
        LedgerFrame::bounded(ledger, layout) <== ledger.control.len() <= 64 && ledger.admissions.len() <= 64 && ledger.removals.len() <= 1024
            && ledger.commit_acks.len() <= 64 && ledger.unrouted.len() <= layout.channel_ack_limit && ledger.invites.len() <= 64,
{
}

} // verus!
