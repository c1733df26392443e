//! The byte strings and values that reading asks the host's codecs about.

use vstd::prelude::*;
use crate::archive_frame::{CentralOwnership, CentralView, ChannelBody, ChannelBodyView, CommitAckFrame, CommitAckView, ControlFrame, ControlView, CoreFrame, CoreView, DeliveryFrame, DeliveryView, InboxEntryFrame, InboxEntryView, MemberFrame, MemberView, MembershipFrame, MembershipView, MessageFrame, MessageView, NameFrame, NameView, PeerRouteFrame, PeerRouteView, PendingFrame, PendingView, ProcessedFrame, ProcessedView, RecipientFrame, RecipientView, SessionFrame, SessionView};
use crate::bytes::copy_bytes;
use crate::codec::{RoleKey, WireKey};
use crate::model::{views, Cell, CellView};
use crate::owner_record::{GroupFrame, GroupFrameView};
use crate::record::maybe_view;

verus! {

/// Something that the host has to look at before an archive can be read.
#[derive(Debug)]
pub enum ArchiveString {
    /// An encoding of a public contact card.
    Card(Vec<u8>),
    /// An encoding of a private contact card.
    PrivateCard(Vec<u8>),
    /// An encoding of a channel route.
    Route(Vec<u8>),
    /// A session, sealed or not.
    Session(Vec<u8>),
    /// An application or direct record.
    Record(Vec<u8>),
    /// A cell for the transport.
    Cell(Cell),
    /// A channel role.
    Role(RoleKey),
    /// A message of a channel.
    Message(WireKey),
    /// The key of a removal, typed or by name.
    Removal(String),
    /// A prepared join.
    Join(Vec<u8>),
    /// A message in the inbox.
    Inbox(InboxEntryFrame),
    /// A transport identity.
    TlsIdentity(Vec<u8>),
    /// A routing directory.
    Directory(Vec<u8>),
    /// A ledger of receipts.
    Receipts(Vec<u8>),
    /// A partition of ownership.
    Partition(CentralOwnership),
    /// A grant to forward.
    Grant(Vec<u8>),
}

pub enum StringView {
    Card(Seq<u8>),
    PrivateCard(Seq<u8>),
    Route(Seq<u8>),
    Session(Seq<u8>),
    Record(Seq<u8>),
    Cell(CellView),
    Role((bool, Seq<char>, Seq<u8>)),
    Message((Seq<char>, Seq<u8>)),
    Removal(Seq<char>),
    Join(Seq<u8>),
    Inbox(InboxEntryView),
    TlsIdentity(Seq<u8>),
    Directory(Seq<u8>),
    Receipts(Seq<u8>),
    Partition(CentralView),
    Grant(Seq<u8>),
}

impl View for ArchiveString {
    type V = StringView;

    open spec fn view(&self) -> StringView {
        match *self {
            ArchiveString::Card(x) => StringView::Card(x@),
            ArchiveString::PrivateCard(x) => StringView::PrivateCard(x@),
            ArchiveString::Route(x) => StringView::Route(x@),
            ArchiveString::Session(x) => StringView::Session(x@),
            ArchiveString::Record(x) => StringView::Record(x@),
            ArchiveString::Cell(x) => StringView::Cell(x@),
            ArchiveString::Role(x) => StringView::Role(x@),
            ArchiveString::Message(x) => StringView::Message(x@),
            ArchiveString::Removal(x) => StringView::Removal(x@),
            ArchiveString::Join(x) => StringView::Join(x@),
            ArchiveString::Inbox(x) => StringView::Inbox(x@),
            ArchiveString::TlsIdentity(x) => StringView::TlsIdentity(x@),
            ArchiveString::Directory(x) => StringView::Directory(x@),
            ArchiveString::Receipts(x) => StringView::Receipts(x@),
            ArchiveString::Partition(x) => StringView::Partition(x@),
            ArchiveString::Grant(x) => StringView::Grant(x@),
        }
    }
}

/// A list of one.
pub open spec fn one(s: StringView) -> Seq<StringView> {
    seq![s]
}

pub open spec fn none() -> Seq<StringView> {
    Seq::empty()
}

/// Adds to a list.
pub fn list_one(s: ArchiveString, out: &mut Vec<ArchiveString>)
    ensures
        views(final(out)@) == views(old(out)@) + one(s@),
{
    out.push(s);
    assert(views(out@) =~= views(old(out)@) + one(s@));
}

pub proof fn lemma_list(x: Seq<StringView>, y: Seq<StringView>, z: Seq<StringView>)
    ensures
        (x + y) + z == x + (y + z),
        x + none() == x,
        none() + x == x,
{
    assert((x + y) + z =~= x + (y + z));
    assert(x + none() =~= x);
    assert(none() + x =~= x);
}

/// What is in an archive and has to be looked at.
pub trait Stringed: View + Sized {
    spec fn strings(v: Self::V, version: u8) -> Seq<StringView>;

    fn list(&self, version: u8, out: &mut Vec<ArchiveString>)
        ensures
            views(final(out)@) == views(old(out)@) + Self::strings(self@, version),
    ;
}

/// What the first `n` of a list hold.
pub open spec fn strings_of<R: Stringed>(vs: Seq<R::V>, n: nat, version: u8) -> Seq<StringView>
    decreases n,
{
    if n == 0 {
        none()
    } else {
        strings_of::<R>(vs, (n - 1) as nat, version) + R::strings(vs[n - 1], version)
    }
}

pub open spec fn all_strings<R: Stringed>(vs: Seq<R::V>, version: u8) -> Seq<StringView> {
    strings_of::<R>(vs, vs.len(), version)
}

pub fn list_all<R: Stringed>(items: &Vec<R>, version: u8, out: &mut Vec<ArchiveString>)
    ensures
        views(final(out)@) == views(old(out)@) + all_strings::<R>(views(items@), version),
{
    let ghost v = views(items@);
    let ghost start = views(out@);
    let mut i: usize = 0;
    proof {
        lemma_list(start, none(), none());
    }
    while i < items.len()
        invariant
            i <= items.len(),
            v == views(items@),
            views(out@) == start + strings_of::<R>(v, i as nat, version),
        decreases items.len() - i,
    {
        items[i].list(version, out);
        proof {
            assert(v[i as int] == items@[i as int]@);
            lemma_list(start, strings_of::<R>(v, i as nat, version), R::strings(v[i as int], version));
        }
        i += 1;
    }
}

impl Stringed for Cell {
    open spec fn strings(v: CellView, version: u8) -> Seq<StringView> {
        one(StringView::Cell(v))
    }

    fn list(&self, version: u8, out: &mut Vec<ArchiveString>) {
        list_one(ArchiveString::Cell(self.clone()), out);
    }
}

impl Stringed for SessionFrame {
    open spec fn strings(v: SessionView, version: u8) -> Seq<StringView> {
        one(StringView::Session(v.sealed))
    }

    fn list(&self, version: u8, out: &mut Vec<ArchiveString>) {
        list_one(ArchiveString::Session(copy_bytes(self.sealed.as_slice())), out);
    }
}

impl Stringed for PeerRouteFrame {
    open spec fn strings(v: PeerRouteView, version: u8) -> Seq<StringView> {
        one(StringView::Card(v.card))
    }

    fn list(&self, version: u8, out: &mut Vec<ArchiveString>) {
        list_one(ArchiveString::Card(copy_bytes(self.card.as_slice())), out);
    }
}

/// The card of the relay, in the versions that name one.
pub open spec fn relay_strings(relay: Seq<u8>, version: u8) -> Seq<StringView> {
    if version < 6 {
        one(StringView::PrivateCard(relay))
    } else {
        none()
    }
}

impl Stringed for DeliveryFrame {
    open spec fn strings(v: DeliveryView, version: u8) -> Seq<StringView> {
        one(StringView::Card(v.card)) + (relay_strings(v.relay, version) + all_strings::<Cell>(v.cells, version))
    }

    fn list(&self, version: u8, out: &mut Vec<ArchiveString>) {
        let ghost start = views(out@);
        list_one(ArchiveString::Card(copy_bytes(self.card.as_slice())), out);
        proof {
            lemma_list(views(out@), none(), none());
        }
        if version < 6 {
            list_one(ArchiveString::PrivateCard(copy_bytes(self.relay.as_slice())), out);
        }
        list_all(&self.cells, version, out);
        proof {
            let (a, b, c) = (
                one(StringView::Card(self.card@)),
                relay_strings(self.relay@, version),
                all_strings::<Cell>(views(self.cells@), version),
            );
            lemma_list(start + a, b, c);
            lemma_list(start, a, b + c);
        }
    }
}

/// A record, where there is one.
pub open spec fn record_strings(o: Option<Seq<u8>>) -> Seq<StringView> {
    match o {
        Some(record) => one(StringView::Record(record)),
        None => none(),
    }
}

impl Stringed for PendingFrame {
    open spec fn strings(v: PendingView, version: u8) -> Seq<StringView> {
        record_strings(v.logical) + DeliveryFrame::strings(v.delivery, version)
    }

    fn list(&self, version: u8, out: &mut Vec<ArchiveString>) {
        let ghost start = views(out@);
        match &self.logical {
            Some(record) => {
                list_one(ArchiveString::Record(copy_bytes(record.as_slice())), out);
            },
            None => {},
        }
        proof {
            lemma_list(start, record_strings(self@.logical), DeliveryFrame::strings(self.delivery@, version));
            assert(views(out@) == start + record_strings(self@.logical));
        }
        self.delivery.list(version, out);
    }
}

impl Stringed for ProcessedFrame {
    open spec fn strings(v: ProcessedView, version: u8) -> Seq<StringView> {
        DeliveryFrame::strings(v.delivery, version)
    }

    fn list(&self, version: u8, out: &mut Vec<ArchiveString>) {
        self.delivery.list(version, out);
    }
}

impl Stringed for RecipientFrame {
    open spec fn strings(v: RecipientView, version: u8) -> Seq<StringView> {
        one(StringView::Route(v.route))
    }

    fn list(&self, version: u8, out: &mut Vec<ArchiveString>) {
        list_one(ArchiveString::Route(copy_bytes(self.route.as_slice())), out);
    }
}

impl Stringed for MemberFrame {
    open spec fn strings(v: MemberView, version: u8) -> Seq<StringView> {
        one(StringView::Route(v.route))
    }

    fn list(&self, version: u8, out: &mut Vec<ArchiveString>) {
        list_one(ArchiveString::Route(copy_bytes(self.route.as_slice())), out);
    }
}

impl Stringed for ControlFrame {
    open spec fn strings(v: ControlView, version: u8) -> Seq<StringView> {
        one(StringView::Route(v.route))
    }

    fn list(&self, version: u8, out: &mut Vec<ArchiveString>) {
        list_one(ArchiveString::Route(copy_bytes(self.route.as_slice())), out);
    }
}

/// The names in an archive that are looked at are those of removals.
impl Stringed for NameFrame {
    open spec fn strings(v: NameView, version: u8) -> Seq<StringView> {
        one(StringView::Removal(v.name))
    }

    fn list(&self, version: u8, out: &mut Vec<ArchiveString>) {
        list_one(ArchiveString::Removal(self.name.clone()), out);
    }
}

impl Stringed for CommitAckFrame {
    open spec fn strings(v: CommitAckView, version: u8) -> Seq<StringView> {
        one(StringView::Route(v.route))
    }

    fn list(&self, version: u8, out: &mut Vec<ArchiveString>) {
        list_one(ArchiveString::Route(copy_bytes(self.route.as_slice())), out);
    }
}

impl Stringed for GroupFrame {
    open spec fn strings(v: GroupFrameView, version: u8) -> Seq<StringView> {
        one(StringView::PrivateCard(v.card)) + one(StringView::PrivateCard(v.original))
    }

    fn list(&self, version: u8, out: &mut Vec<ArchiveString>) {
        let ghost start = views(out@);
        list_one(ArchiveString::PrivateCard(copy_bytes(self.card.as_slice())), out);
        list_one(ArchiveString::PrivateCard(copy_bytes(self.original.as_slice())), out);
        proof {
            lemma_list(start, one(StringView::PrivateCard(self.card@)), one(StringView::PrivateCard(self.original@)));
        }
    }
}

/// What the direct journals hold.
pub open spec fn core_strings(v: CoreView, version: u8) -> Seq<StringView> {
    all_strings::<SessionFrame>(v.sessions, version) + (all_strings::<PeerRouteFrame>(v.peer_routes, version) + (all_strings::<PendingFrame>(v.pending, version)
        + (all_strings::<DeliveryFrame>(v.acks, version) + all_strings::<ProcessedFrame>(v.processed, version))))
}

pub fn list_core(core: &CoreFrame, version: u8, out: &mut Vec<ArchiveString>)
    ensures
        views(final(out)@) == views(old(out)@) + core_strings(core@, version),
{
    let ghost start = views(out@);
    list_all(&core.sessions, version, out);
    list_all(&core.peer_routes, version, out);
    list_all(&core.pending, version, out);
    list_all(&core.acks, version, out);
    list_all(&core.processed, version, out);
    proof {
        let (a, b, c, d, e) = (
            all_strings::<SessionFrame>(core@.sessions, version),
            all_strings::<PeerRouteFrame>(core@.peer_routes, version),
            all_strings::<PendingFrame>(core@.pending, version),
            all_strings::<DeliveryFrame>(core@.acks, version),
            all_strings::<ProcessedFrame>(core@.processed, version),
        );
        lemma_list(start + a + b + c, d, e);
        lemma_list(start + a + b, c, d + e);
        lemma_list(start + a, b, c + (d + e));
        lemma_list(start, a, b + (c + (d + e)));
    }
}

/// What the first `n` messages of a channel hold.
pub open spec fn message_strings(vs: Seq<MessageView>, n: nat, channel: Seq<char>, version: u8) -> Seq<StringView>
    decreases n,
{
    if n == 0 {
        none()
    } else {
        message_strings(vs, (n - 1) as nat, channel, version) + (one(StringView::Message((channel, vs[n - 1].wire))) + all_strings::<
            RecipientFrame,
        >(vs[n - 1].recipients.expected, version))
    }
}

fn list_wire(channel: &String, wire: &Vec<u8>, out: &mut Vec<ArchiveString>)
    ensures
        views(final(out)@) == views(old(out)@) + one(StringView::Message((channel@, wire@))),
{
    list_one(ArchiveString::Message(WireKey { channel: channel.clone(), wire: copy_bytes(wire.as_slice()) }), out);
}

fn list_messages(items: &Vec<MessageFrame>, channel: &String, version: u8, out: &mut Vec<ArchiveString>)
    ensures
        views(final(out)@) == views(old(out)@) + message_strings(views(items@), items@.len(), channel@, version),
{
    let ghost v = views(items@);
    let ghost start = views(out@);
    let mut i: usize = 0;
    proof {
        lemma_list(start, none(), none());
    }
    while i < items.len()
        invariant
            i <= items.len(),
            v == views(items@),
            views(out@) == start + message_strings(v, i as nat, channel@, version),
        decreases items.len() - i,
    {
        let ghost before = message_strings(v, i as nat, channel@, version);
        list_wire(channel, &items[i].wire, out);
        list_all(&items[i].recipients.expected, version, out);
        proof {
            assert(v[i as int] == items@[i as int]@);
            let x = one(StringView::Message((channel@, v[i as int].wire)));
            let y = all_strings::<RecipientFrame>(v[i as int].recipients.expected, version);
            lemma_list(start + before, x, y);
            lemma_list(start, before, x + y);
        }
        i += 1;
    }
}

/// What a change of membership holds, where there is one.
pub open spec fn membership_strings(o: Option<MembershipView>, channel: Seq<char>, version: u8) -> Seq<StringView> {
    match o {
        Some(v) => one(StringView::Message((channel, v.commit))) + all_strings::<RecipientFrame>(v.recipients.expected, version),
        None => none(),
    }
}

fn list_membership(o: &Option<MembershipFrame>, channel: &String, version: u8, out: &mut Vec<ArchiveString>)
    ensures
        views(final(out)@) == views(old(out)@) + membership_strings(maybe_view(*o), channel@, version),
{
    let ghost start = views(out@);
    match o {
        Some(f) => {
            list_wire(channel, &f.commit, out);
            list_all(&f.recipients.expected, version, out);
            proof {
                let x = one(StringView::Message((channel@, f.commit@)));
                lemma_list(start, x, all_strings::<RecipientFrame>(f@.recipients.expected, version));
            }
        },
        None => {
            proof {
                lemma_list(start, none(), none());
            }
        },
    }
}

/// What the journals of a channel hold.
pub open spec fn body_strings(v: ChannelBodyView, channel: Seq<char>, version: u8) -> Seq<StringView> {
    all_strings::<MemberFrame>(v.outbox.directory, version) + (message_strings(v.outbox.messages, v.outbox.messages.len(), channel, version) + (
    membership_strings(v.outbox.membership, channel, version) + (all_strings::<ControlFrame>(v.ledger.control, version) + (all_strings::<NameFrame>(
        v.ledger.removals, version) + all_strings::<CommitAckFrame>(v.ledger.commit_acks, version)))))
}

pub fn list_body(body: &ChannelBody, channel: &String, version: u8, out: &mut Vec<ArchiveString>)
    ensures
        views(final(out)@) == views(old(out)@) + body_strings(body@, channel@, version),
{
    let ghost start = views(out@);
    list_all(&body.outbox.directory, version, out);
    list_messages(&body.outbox.messages, channel, version, out);
    list_membership(&body.outbox.membership, channel, version, out);
    list_all(&body.ledger.control, version, out);
    list_all(&body.ledger.removals, version, out);
    list_all(&body.ledger.commit_acks, version, out);
    proof {
        let v = body@;
        let (a, b, c, d, e, f) = (
            all_strings::<MemberFrame>(v.outbox.directory, version),
            message_strings(v.outbox.messages, v.outbox.messages.len(), channel@, version),
            membership_strings(v.outbox.membership, channel@, version),
            all_strings::<ControlFrame>(v.ledger.control, version),
            all_strings::<NameFrame>(v.ledger.removals, version),
            all_strings::<CommitAckFrame>(v.ledger.commit_acks, version),
        );
        lemma_list(start + a + b + c + d, e, f);
        lemma_list(start + a + b + c, d, e + f);
        lemma_list(start + a + b, c, d + (e + f));
        lemma_list(start + a, b, c + (d + (e + f)));
        lemma_list(start, a, b + (c + (d + (e + f))));
    }
}

} // verus!
