//! How the journals of a live node become entries of an archive.

use vstd::prelude::*;
use crate::archive_frame::{AdmissionFrame, AdmissionView, CommitAckFrame, CommitAckView, ControlFrame, ControlView, DeliveryFrame, DeliveryView, ExpectedFrame, ExpectedView, IdFrame, IdView, InviteFrame, InviteView, MemberFrame, MemberView, MembershipFrame, MembershipView, MessageFrame, MessageView, NameFrame, NameView, PeerRouteFrame, PeerRouteView, PendingFrame, PendingView, ProcessedFrame, ProcessedView, RecipientFrame, RecipientView, SessionFrame, SessionView, UnroutedFrame, UnroutedView};
use crate::bytes::{copy_bytes, same_bytes, same_id, same_id16};
use crate::channel_route::{encode_route, route_wire};
use crate::codec::{Codec, RoleFacts};
use crate::error::Error;
use crate::model::{copy_cells, views, CellView, ChannelRoute, NodeInfo};
use crate::node_state::{ChannelMessageOutbox, ChannelState, ControlWire, DirectDelivery, DirectSessionState, InviteRecord, MembershipOutbox, PeerSession, PendingDirect, ProcessedDirect, ProcessedKey, Snapshot, UnroutedAckKey};
use crate::record::{bytes_view, maybe_view, Framed};
use crate::table::{among, Table};
use crate::time::Instant;

verus! {

/// A live item that an archive keeps as an entry. What stands around it is `W`.
pub trait Stored<W: Copy>: Sized {
    type F: Framed;

    /// Whether the archive keeps it.
    spec fn kept(&self, w: W) -> bool;

    /// Why it cannot be kept.
    spec fn refusal(&self, w: W) -> Option<Error>;

    spec fn entry(&self, w: W) -> <Self::F as View>::V;

    fn is_kept(&self, w: W) -> (r: bool)
        ensures
            r == self.kept(w),
    ;

    fn to_entry(&self, w: W) -> (r: Result<Self::F, Error>)
        requires
            self.kept(w),
        ensures
            match r {
                Ok(f) => self.refusal(w) is None && f@ == self.entry(w),
                Err(e) => self.refusal(w) == Some(e),
            },
    ;
}

/// The entries of the first `n` items.
pub open spec fn entries_of<W: Copy, S: Stored<W>>(s: Seq<S>, n: nat, w: W) -> Seq<<S::F as View>::V>
    decreases n,
{
    if n == 0 {
        Seq::empty()
    } else {
        let before = entries_of(s, (n - 1) as nat, w);
        if s[n - 1].kept(w) {
            before.push(s[n - 1].entry(w))
        } else {
            before
        }
    }
}

/// Why the first of the first `n` items that cannot be kept cannot.
pub open spec fn first_refusal<W: Copy, S: Stored<W>>(s: Seq<S>, n: nat, w: W) -> Option<Error>
    decreases n,
{
    if n == 0 {
        None
    } else {
        match first_refusal(s, (n - 1) as nat, w) {
            Some(e) => Some(e),
            None => if s[n - 1].kept(w) {
                s[n - 1].refusal(w)
            } else {
                None
            },
        }
    }
}

proof fn lemma_refusal_stays<W: Copy, S: Stored<W>>(s: Seq<S>, m: nat, n: nat, w: W)
    requires
        m <= n,
        first_refusal(s, m, w) is Some,
    ensures
        first_refusal(s, n, w) == first_refusal(s, m, w),
    decreases n,
{
    if m < n {
        lemma_refusal_stays(s, m, (n - 1) as nat, w);
    }
}

pub open spec fn all_refusal<W: Copy, S: Stored<W>>(s: Seq<S>, w: W) -> Option<Error> {
    first_refusal(s, s.len(), w)
}

pub open spec fn all_entries<W: Copy, S: Stored<W>>(s: Seq<S>, w: W) -> Seq<<S::F as View>::V> {
    entries_of(s, s.len(), w)
}

pub fn to_entries<W: Copy, S: Stored<W>>(items: &Vec<S>, w: W) -> (r: Result<Vec<S::F>, Error>)
    ensures
        match r {
            Ok(f) => all_refusal(items@, w) is None && views(f@) == all_entries(items@, w),
            Err(e) => all_refusal(items@, w) == Some(e),
        },
{
    let mut out: Vec<S::F> = Vec::new();
    let mut i: usize = 0;
    assert(views(out@) =~= Seq::<<S::F as View>::V>::empty());
    while i < items.len()
        invariant
            i <= items.len(),
            first_refusal(items@, i as nat, w) is None,
            views(out@) == entries_of(items@, i as nat, w),
        decreases items.len() - i,
    {
        if items[i].is_kept(w) {
            let ghost before = views(out@);
            match items[i].to_entry(w) {
                Ok(f) => {
                    out.push(f);
                    assert(views(out@) =~= before.push(f@));
                },
                Err(e) => {
                    proof {
                        lemma_refusal_stays(items@, (i + 1) as nat, items@.len(), w);
                    }
                    return Err(e);
                },
            }
        }
        i += 1;
    }
    Ok(out)
}

/// The first of two refusals.
pub open spec fn first(a: Option<Error>, b: Option<Error>) -> Option<Error> {
    match a {
        Some(e) => Some(e),
        None => b,
    }
}

/// What is left until a moment, in whole milliseconds.
pub open spec fn millis_left(deadline: Instant, now: Instant) -> u64 {
    if deadline.nanos <= now.nanos {
        0
    } else if (deadline.nanos - now.nanos) / 1_000_000 > u64::MAX {
        u64::MAX
    } else {
        ((deadline.nanos - now.nanos) / 1_000_000) as u64
    }
}

pub fn remaining_ms(deadline: Instant, now: Instant) -> (r: u64)
    ensures
        r == millis_left(deadline, now),
{
    if deadline.nanos <= now.nanos {
        return 0;
    }
    let left: u128 = (deadline.nanos - now.nanos) / 1_000_000;
    if left > u64::MAX as u128 {
        u64::MAX
    } else {
        left as u64
    }
}

/// What stands around the direct journals.
#[derive(Clone, Copy)]
pub struct Writing<'a> {
    pub codec: &'a Codec,
    pub now: Instant,
    pub session_states: &'a Table<Vec<u8>, DirectSessionState>,
    pub generations: &'a Table<Vec<u8>, u64>,
    pub processed: &'a Table<ProcessedKey, ProcessedDirect>,
    /// A session that is written in place of the live one.
    pub replaced: Option<(&'a Vec<u8>, &'a Snapshot)>,
}

/// The time that is left to confirm a session not yet confirmed.
pub open spec fn time_to_confirm(states: Table<Vec<u8>, DirectSessionState>, peer: Seq<u8>, now: Instant) -> Option<u64> {
    match states.lookup(peer) {
        Some(DirectSessionState::InitiatedUnconfirmed { expires }) => Some(millis_left(expires, now)),
        _ => None,
    }
}

impl<'a> Stored<Writing<'a>> for (Vec<u8>, PeerSession) {
    type F = SessionFrame;

    open spec fn kept(&self, w: Writing<'a>) -> bool {
        true
    }

    open spec fn refusal(&self, w: Writing<'a>) -> Option<Error> {
        None
    }

    open spec fn entry(&self, w: Writing<'a>) -> SessionView {
        SessionView {
            peer: self.0@,
            unconfirmed: time_to_confirm(*w.session_states, self.0@, w.now),
            sealed: match w.replaced {
                Some((peer, snapshot)) => if peer@ == self.0@ {
                    snapshot.bytes@
                } else {
                    self.1.sealed@
                },
                None => self.1.sealed@,
            },
        }
    }

    fn is_kept(&self, w: Writing<'a>) -> (r: bool) {
        true
    }

    fn to_entry(&self, w: Writing<'a>) -> (r: Result<SessionFrame, Error>) {
        let unconfirmed = match w.session_states.get(&self.0) {
            Some(DirectSessionState::InitiatedUnconfirmed { expires }) => Some(remaining_ms(*expires, w.now)),
            _ => None,
        };
        let sealed = match w.replaced {
            Some((peer, snapshot)) => if same_bytes(peer.as_slice(), self.0.as_slice()) {
                copy_bytes(snapshot.bytes.as_slice())
            } else {
                copy_bytes(self.1.sealed.as_slice())
            },
            None => copy_bytes(self.1.sealed.as_slice()),
        };
        Ok(SessionFrame { peer: copy_bytes(self.0.as_slice()), unconfirmed, sealed })
    }
}

impl<'a> Stored<Writing<'a>> for (Vec<u8>, NodeInfo) {
    type F = PeerRouteFrame;

    open spec fn kept(&self, w: Writing<'a>) -> bool {
        true
    }

    open spec fn refusal(&self, w: Writing<'a>) -> Option<Error> {
        if self.0@ != self.1.identity_pk@ {
            Some(Error::InvalidPeerRoute)
        } else if w.codec.card_wire(self.1@) is None {
            Some(Error::NotListed)
        } else {
            None
        }
    }

    open spec fn entry(&self, w: Writing<'a>) -> PeerRouteView {
        PeerRouteView {
            peer: self.0@,
            card: w.codec.card_wire(self.1@)->0,
            generation: match w.generations.lookup(self.0@) {
                Some(n) => n,
                None => 0,
            },
        }
    }

    fn is_kept(&self, w: Writing<'a>) -> (r: bool) {
        true
    }

    fn to_entry(&self, w: Writing<'a>) -> (r: Result<PeerRouteFrame, Error>) {
        if !same_bytes(self.0.as_slice(), self.1.identity_pk.as_slice()) {
            return Err(Error::InvalidPeerRoute);
        }
        let card = match w.codec.encode_card(&self.1) {
            Some(card) => card,
            None => {
                return Err(Error::NotListed);
            },
        };
        let generation: u64 = match w.generations.get(&self.0) {
            Some(n) => *n,
            None => 0,
        };
        Ok(PeerRouteFrame { peer: copy_bytes(self.0.as_slice()), card, generation })
    }
}

/// Whether the transport can carry the first `n` cells.
pub open spec fn carried(cells: Seq<CellView>, codec: Codec) -> bool {
    crate::archive_check::cells_carried(cells, codec)
}

pub open spec fn delivery_refusal(d: DirectDelivery, codec: Codec) -> Option<Error> {
    if codec.card_wire(d.peer@) is None {
        Some(Error::NotListed)
    } else if !carried(views(d.cells@), codec) {
        Some(Error::CellRefused)
    } else {
        None
    }
}

pub open spec fn delivery_entry(d: DirectDelivery, codec: Codec) -> DeliveryView {
    DeliveryView { card: codec.card_wire(d.peer@)->0, relay: Seq::empty(), cells: views(d.cells@) }
}

fn keep_delivery(d: &DirectDelivery, codec: &Codec) -> (r: Result<DeliveryFrame, Error>)
    ensures
        match r {
            Ok(f) => delivery_refusal(*d, *codec) is None && f@ == delivery_entry(*d, *codec),
            Err(e) => delivery_refusal(*d, *codec) == Some(e),
        },
{
    let card = match codec.encode_card(&d.peer) {
        Some(card) => card,
        None => {
            return Err(Error::NotListed);
        },
    };
    if !crate::archive_check::are_cells_carried(&d.cells, codec) {
        return Err(Error::CellRefused);
    }
    let f = DeliveryFrame { card, relay: Vec::new(), cells: copy_cells(&d.cells) };
    assert(f@.relay =~= Seq::<u8>::empty());
    Ok(f)
}

impl<'a> Stored<Writing<'a>> for DirectDelivery {
    type F = DeliveryFrame;

    open spec fn kept(&self, w: Writing<'a>) -> bool {
        true
    }

    open spec fn refusal(&self, w: Writing<'a>) -> Option<Error> {
        delivery_refusal(*self, *w.codec)
    }

    open spec fn entry(&self, w: Writing<'a>) -> DeliveryView {
        delivery_entry(*self, *w.codec)
    }

    fn is_kept(&self, w: Writing<'a>) -> (r: bool) {
        true
    }

    fn to_entry(&self, w: Writing<'a>) -> (r: Result<DeliveryFrame, Error>) {
        keep_delivery(self, w.codec)
    }
}

/// Waiting messages are kept, but for volatile application records.
impl<'a> Stored<Writing<'a>> for ([u8; 16], PendingDirect) {
    type F = PendingFrame;

    open spec fn kept(&self, w: Writing<'a>) -> bool {
        match self.1.logical_record {
            Some(record) => !w.codec.is_volatile(record@),
            None => true,
        }
    }

    open spec fn refusal(&self, w: Writing<'a>) -> Option<Error> {
        delivery_refusal(self.1.delivery, *w.codec)
    }

    open spec fn entry(&self, w: Writing<'a>) -> PendingView {
        PendingView {
            message_id: self.0,
            retry_ms: millis_left(self.1.next_attempt, w.now),
            expiry_ms: millis_left(self.1.expires, w.now),
            sequence: self.1.sequence,
            logical: bytes_view(self.1.logical_record),
            application_event: self.1.application_event,
            delivery: delivery_entry(self.1.delivery, *w.codec),
        }
    }

    fn is_kept(&self, w: Writing<'a>) -> (r: bool) {
        match &self.1.logical_record {
            Some(record) => !w.codec.is_volatile_application(record),
            None => true,
        }
    }

    fn to_entry(&self, w: Writing<'a>) -> (r: Result<PendingFrame, Error>) {
        let delivery = match keep_delivery(&self.1.delivery, w.codec) {
            Ok(delivery) => delivery,
            Err(e) => {
                return Err(e);
            },
        };
        Ok(
            PendingFrame {
                message_id: self.0,
                retry_ms: remaining_ms(self.1.next_attempt, w.now),
                expiry_ms: remaining_ms(self.1.expires, w.now),
                sequence: self.1.sequence,
                logical: match &self.1.logical_record {
                    Some(record) => Some(copy_bytes(record.as_slice())),
                    None => None,
                },
                application_event: self.1.application_event,
                delivery,
            },
        )
    }
}

/// Frames that were taken are kept in their order.
impl<'a> Stored<Writing<'a>> for ProcessedKey {
    type F = ProcessedFrame;

    open spec fn kept(&self, w: Writing<'a>) -> bool {
        true
    }

    open spec fn refusal(&self, w: Writing<'a>) -> Option<Error> {
        match w.processed.lookup(self@) {
            None => Some(Error::InvalidProcessedOrder),
            Some(processed) => delivery_refusal(processed.delivery, *w.codec),
        }
    }

    open spec fn entry(&self, w: Writing<'a>) -> ProcessedView {
        let processed = w.processed.lookup(self@)->0;
        ProcessedView {
            peer: self.peer@,
            counter: self.counter,
            frame_hash: processed.frame_hash,
            delivery: delivery_entry(processed.delivery, *w.codec),
        }
    }

    fn is_kept(&self, w: Writing<'a>) -> (r: bool) {
        true
    }

    fn to_entry(&self, w: Writing<'a>) -> (r: Result<ProcessedFrame, Error>) {
        let processed = match w.processed.get(self) {
            Some(processed) => processed,
            None => {
                return Err(Error::InvalidProcessedOrder);
            },
        };
        match keep_delivery(&processed.delivery, w.codec) {
            Ok(delivery) => Ok(
                ProcessedFrame {
                    peer: copy_bytes(self.peer.as_slice()),
                    counter: self.counter,
                    frame_hash: processed.frame_hash,
                    delivery,
                },
            ),
            Err(e) => Err(e),
        }
    }
}

/// What stands around the journals of a channel.
#[derive(Clone, Copy)]
pub struct ChannelWriting<'a> {
    pub codec: &'a Codec,
    pub name: &'a String,
    pub role: &'a RoleFacts,
    pub channel: &'a ChannelState,
}

/// Members are kept, but for the node itself.
impl<'a> Stored<ChannelWriting<'a>> for (String, ChannelRoute) {
    type F = MemberFrame;

    open spec fn kept(&self, w: ChannelWriting<'a>) -> bool {
        self.1.pseudonym != w.role.pseudonym
    }

    open spec fn refusal(&self, w: ChannelWriting<'a>) -> Option<Error> {
        if route_wire(*w.codec, self.1) is None {
            Some(Error::NotListed)
        } else {
            None
        }
    }

    open spec fn entry(&self, w: ChannelWriting<'a>) -> MemberView {
        MemberView { member: self.0@, route: route_wire(*w.codec, self.1)->0 }
    }

    fn is_kept(&self, w: ChannelWriting<'a>) -> (r: bool) {
        !same_id(&self.1.pseudonym, &w.role.pseudonym)
    }

    fn to_entry(&self, w: ChannelWriting<'a>) -> (r: Result<MemberFrame, Error>) {
        match encode_route(w.codec, &self.1) {
            Some(route) => Ok(MemberFrame { member: self.0.clone(), route }),
            None => Err(Error::NotListed),
        }
    }
}

impl<'a> Stored<&'a Codec> for ([u8; 32], ChannelRoute) {
    type F = RecipientFrame;

    open spec fn kept(&self, w: &'a Codec) -> bool {
        true
    }

    open spec fn refusal(&self, w: &'a Codec) -> Option<Error> {
        if self.0 != self.1.pseudonym {
            Some(Error::InvalidExpectedRecipient)
        } else if route_wire(*w, self.1) is None {
            Some(Error::NotListed)
        } else {
            None
        }
    }

    open spec fn entry(&self, w: &'a Codec) -> RecipientView {
        RecipientView { identity: self.0, route: route_wire(*w, self.1)->0 }
    }

    fn is_kept(&self, w: &'a Codec) -> (r: bool) {
        true
    }

    fn to_entry(&self, w: &'a Codec) -> (r: Result<RecipientFrame, Error>) {
        if !same_id(&self.0, &self.1.pseudonym) {
            return Err(Error::InvalidExpectedRecipient);
        }
        match encode_route(w, &self.1) {
            Some(route) => Ok(RecipientFrame { identity: self.0, route }),
            None => Err(Error::NotListed),
        }
    }
}

/// Whether each answer came from an expected recipient.
pub open spec fn answers_expected(acknowledged: Seq<[u8; 32]>, expected: Table<[u8; 32], ChannelRoute>) -> bool {
    forall|i: int| 0 <= i < acknowledged.len() ==> expected.has((#[trigger] acknowledged[i])@)
}

pub open spec fn expected_refusal(acknowledged: Seq<[u8; 32]>, expected: Table<[u8; 32], ChannelRoute>, codec: &Codec) -> Option<Error> {
    if !answers_expected(acknowledged, expected) {
        Some(Error::InvalidAcknowledgedRecipient)
    } else {
        all_refusal(expected.entries@, codec)
    }
}

pub open spec fn id_views(ids: Seq<[u8; 32]>) -> Seq<IdView> {
    Seq::new(ids.len(), |i: int| IdView { id: ids[i] })
}

pub open spec fn expected_entry(acknowledged: Seq<[u8; 32]>, expected: Table<[u8; 32], ChannelRoute>, codec: &Codec) -> ExpectedView {
    ExpectedView { expected: all_entries(expected.entries@, codec), acknowledged: id_views(acknowledged) }
}

fn keep_expected(acknowledged: &Vec<[u8; 32]>, expected: &Table<[u8; 32], ChannelRoute>, codec: &Codec) -> (r: Result<ExpectedFrame, Error>)
    ensures
        match r {
            Ok(f) => expected_refusal(acknowledged@, *expected, codec) is None && f@ == expected_entry(acknowledged@, *expected, codec),
            Err(e) => expected_refusal(acknowledged@, *expected, codec) == Some(e),
        },
{
    let mut ids: Vec<IdFrame> = Vec::new();
    let mut i: usize = 0;
    while i < acknowledged.len()
        invariant
            i <= acknowledged.len(),
            ids@.len() == i,
            forall|j: int| 0 <= j < i ==> expected.has((#[trigger] acknowledged@[j])@) && ids@[j].id == acknowledged@[j],
        decreases acknowledged.len() - i,
    {
        if !expected.contains_key(&acknowledged[i]) {
            return Err(Error::InvalidAcknowledgedRecipient);
        }
        ids.push(IdFrame { id: acknowledged[i] });
        i += 1;
    }
    match to_entries(&expected.entries, codec) {
        Ok(recipients) => {
            let f = ExpectedFrame { expected: recipients, acknowledged: ids };
            assert(f@.acknowledged =~= id_views(acknowledged@));
            Ok(f)
        },
        Err(e) => Err(e),
    }
}

impl<'a> Stored<ChannelWriting<'a>> for ([u8; 16], ChannelMessageOutbox) {
    type F = MessageFrame;

    open spec fn kept(&self, w: ChannelWriting<'a>) -> bool {
        true
    }

    open spec fn refusal(&self, w: ChannelWriting<'a>) -> Option<Error> {
        if w.codec.message_id(w.name@, self.1.wire@) != Some(self.0) {
            Some(Error::InvalidMessageJournal)
        } else {
            expected_refusal(self.1.acknowledged@, self.1.expected, w.codec)
        }
    }

    open spec fn entry(&self, w: ChannelWriting<'a>) -> MessageView {
        MessageView {
            message_id: self.0,
            wire: self.1.wire@,
            recipients: expected_entry(self.1.acknowledged@, self.1.expected, w.codec),
        }
    }

    fn is_kept(&self, w: ChannelWriting<'a>) -> (r: bool) {
        true
    }

    fn to_entry(&self, w: ChannelWriting<'a>) -> (r: Result<MessageFrame, Error>) {
        let named = match w.codec.msg_id(w.name, &self.1.wire) {
            Some(id) => same_id16(&id, &self.0),
            None => false,
        };
        if !named {
            return Err(Error::InvalidMessageJournal);
        }
        match keep_expected(&self.1.acknowledged, &self.1.expected, w.codec) {
            Ok(recipients) => Ok(
                MessageFrame { message_id: self.0, wire: copy_bytes(self.1.wire.as_slice()), recipients },
            ),
            Err(e) => Err(e),
        }
    }
}

pub open spec fn membership_refusal(o: Option<MembershipOutbox>, w: ChannelWriting) -> Option<Error> {
    match o {
        None => None,
        Some(m) => if w.codec.message_id(w.name@, m.commit@) != Some(m.commit_id) {
            Some(Error::InvalidMembershipJournal)
        } else {
            expected_refusal(m.acknowledged@, m.expected, w.codec)
        },
    }
}

pub open spec fn membership_entry(o: Option<MembershipOutbox>, w: ChannelWriting) -> Option<MembershipView> {
    match o {
        None => None,
        Some(m) => Some(
            MembershipView {
                commit_id: m.commit_id,
                epoch: m.epoch,
                commit: m.commit@,
                recipients: expected_entry(m.acknowledged@, m.expected, w.codec),
            },
        ),
    }
}

pub fn keep_membership(o: &Option<MembershipOutbox>, w: ChannelWriting) -> (r: Result<Option<MembershipFrame>, Error>)
    ensures
        match r {
            Ok(f) => membership_refusal(*o, w) is None && maybe_view(f) == membership_entry(*o, w),
            Err(e) => membership_refusal(*o, w) == Some(e),
        },
{
    match o {
        None => Ok(None),
        Some(m) => {
            let named = match w.codec.msg_id(w.name, &m.commit) {
                Some(id) => same_id16(&id, &m.commit_id),
                None => false,
            };
            if !named {
                return Err(Error::InvalidMembershipJournal);
            }
            match keep_expected(&m.acknowledged, &m.expected, w.codec) {
                Ok(recipients) => Ok(
                    Some(
                        MembershipFrame {
                            commit_id: m.commit_id,
                            epoch: m.epoch,
                            commit: copy_bytes(m.commit.as_slice()),
                            recipients,
                        },
                    ),
                ),
                Err(e) => Err(e),
            }
        },
    }
}

impl<'a> Stored<ChannelWriting<'a>> for ControlWire {
    type F = ControlFrame;

    open spec fn kept(&self, w: ChannelWriting<'a>) -> bool {
        true
    }

    open spec fn refusal(&self, w: ChannelWriting<'a>) -> Option<Error> {
        if route_wire(*w.codec, self.route) is None {
            Some(Error::NotListed)
        } else {
            None
        }
    }

    open spec fn entry(&self, w: ChannelWriting<'a>) -> ControlView {
        ControlView { route: route_wire(*w.codec, self.route)->0, wire: self.wire@ }
    }

    fn is_kept(&self, w: ChannelWriting<'a>) -> (r: bool) {
        true
    }

    fn to_entry(&self, w: ChannelWriting<'a>) -> (r: Result<ControlFrame, Error>) {
        match encode_route(w.codec, &self.route) {
            Some(route) => Ok(ControlFrame { route, wire: copy_bytes(self.wire.as_slice()) }),
            None => Err(Error::NotListed),
        }
    }
}

/// Admissions are kept in their order.
impl<'a> Stored<ChannelWriting<'a>> for [u8; 32] {
    type F = AdmissionFrame;

    open spec fn kept(&self, w: ChannelWriting<'a>) -> bool {
        true
    }

    open spec fn refusal(&self, w: ChannelWriting<'a>) -> Option<Error> {
        if w.channel.admission_cache.has(self@) {
            None
        } else {
            Some(Error::InvalidAdmissionOrder)
        }
    }

    open spec fn entry(&self, w: ChannelWriting<'a>) -> AdmissionView {
        let admission = w.channel.admission_cache.at(self@);
        AdmissionView {
            request_id: *self,
            name: admission.name@,
            pseudonym: admission.pseudonym,
            welcome: admission.welcome@,
        }
    }

    fn is_kept(&self, w: ChannelWriting<'a>) -> (r: bool) {
        true
    }

    fn to_entry(&self, w: ChannelWriting<'a>) -> (r: Result<AdmissionFrame, Error>) {
        match w.channel.admission_cache.get(self) {
            Some(admission) => Ok(
                AdmissionFrame {
                    request_id: *self,
                    name: admission.name.clone(),
                    pseudonym: admission.pseudonym,
                    welcome: copy_bytes(admission.welcome.as_slice()),
                },
            ),
            None => Err(Error::InvalidAdmissionOrder),
        }
    }
}

/// Removals are kept by their typed key.
impl<'a> Stored<ChannelWriting<'a>> for String {
    type F = NameFrame;

    open spec fn kept(&self, w: ChannelWriting<'a>) -> bool {
        true
    }

    open spec fn refusal(&self, w: ChannelWriting<'a>) -> Option<Error> {
        if views(w.codec.removal_keys@).contains(self@) {
            None
        } else {
            Some(Error::InvalidRemovalKey)
        }
    }

    open spec fn entry(&self, w: ChannelWriting<'a>) -> NameView {
        NameView { name: self@ }
    }

    fn is_kept(&self, w: ChannelWriting<'a>) -> (r: bool) {
        true
    }

    fn to_entry(&self, w: ChannelWriting<'a>) -> (r: Result<NameFrame, Error>) {
        if among(&w.codec.removal_keys, self) {
            Ok(NameFrame { name: self.clone() })
        } else {
            Err(Error::InvalidRemovalKey)
        }
    }
}

/// Acknowledgements of commits are kept in their order.
impl<'a> Stored<ChannelWriting<'a>> for [u8; 16] {
    type F = CommitAckFrame;

    open spec fn kept(&self, w: ChannelWriting<'a>) -> bool {
        true
    }

    open spec fn refusal(&self, w: ChannelWriting<'a>) -> Option<Error> {
        match w.channel.commit_ack_cache.lookup(self@) {
            None => Some(Error::InvalidAckOrder),
            Some(ack) => if route_wire(*w.codec, ack.route) is None {
                Some(Error::NotListed)
            } else {
                None
            },
        }
    }

    open spec fn entry(&self, w: ChannelWriting<'a>) -> CommitAckView {
        let ack = w.channel.commit_ack_cache.lookup(self@)->0;
        CommitAckView { message_id: *self, route: route_wire(*w.codec, ack.route)->0, wire: ack.wire@ }
    }

    fn is_kept(&self, w: ChannelWriting<'a>) -> (r: bool) {
        true
    }

    fn to_entry(&self, w: ChannelWriting<'a>) -> (r: Result<CommitAckFrame, Error>) {
        match w.channel.commit_ack_cache.get(self) {
            Some(ack) => match encode_route(w.codec, &ack.route) {
                Some(route) => Ok(CommitAckFrame { message_id: *self, route, wire: copy_bytes(ack.wire.as_slice()) }),
                None => Err(Error::NotListed),
            },
            None => Err(Error::InvalidAckOrder),
        }
    }
}

/// Acknowledgements without a route are kept in their order, for other members.
impl<'a> Stored<ChannelWriting<'a>> for UnroutedAckKey {
    type F = UnroutedFrame;

    open spec fn kept(&self, w: ChannelWriting<'a>) -> bool {
        true
    }

    open spec fn refusal(&self, w: ChannelWriting<'a>) -> Option<Error> {
        match w.channel.unrouted_ack_journal.lookup(self@) {
            None => Some(Error::InvalidUnroutedOrder),
            Some(wire) => if self.sender_pseudonym == w.role.pseudonym || !w.role.enrolls(self.sender_pseudonym) || wire@.len() == 0 {
                Some(Error::InvalidUnroutedJournal)
            } else {
                None
            },
        }
    }

    open spec fn entry(&self, w: ChannelWriting<'a>) -> UnroutedView {
        UnroutedView {
            original_id: self.original_id,
            sender: self.sender_pseudonym,
            wire: w.channel.unrouted_ack_journal.lookup(self@)->0@,
        }
    }

    fn is_kept(&self, w: ChannelWriting<'a>) -> (r: bool) {
        true
    }

    fn to_entry(&self, w: ChannelWriting<'a>) -> (r: Result<UnroutedFrame, Error>) {
        match w.channel.unrouted_ack_journal.get(self) {
            Some(wire) => {
                if same_id(&self.sender_pseudonym, &w.role.pseudonym) || !w.role.is_member(&self.sender_pseudonym) || wire.len() == 0 {
                    return Err(Error::InvalidUnroutedJournal);
                }
                Ok(
                    UnroutedFrame {
                        original_id: self.original_id,
                        sender: self.sender_pseudonym,
                        wire: copy_bytes(wire.as_slice()),
                    },
                )
            },
            None => Err(Error::InvalidUnroutedOrder),
        }
    }
}

/// Invites are kept in their order.
impl<'a> Stored<&'a Table<[u8; 16], InviteRecord>> for [u8; 16] {
    type F = InviteFrame;

    open spec fn kept(&self, w: &'a Table<[u8; 16], InviteRecord>) -> bool {
        true
    }

    open spec fn refusal(&self, w: &'a Table<[u8; 16], InviteRecord>) -> Option<Error> {
        if w.has(self@) {
            None
        } else {
            Some(Error::InvalidInviteOrder)
        }
    }

    open spec fn entry(&self, w: &'a Table<[u8; 16], InviteRecord>) -> InviteView {
        let invite = w.at(self@);
        InviteView { invite_id: *self, secret: invite.secret, expiry: invite.expiry, consumed: invite.consumed }
    }

    fn is_kept(&self, w: &'a Table<[u8; 16], InviteRecord>) -> (r: bool) {
        true
    }

    fn to_entry(&self, w: &'a Table<[u8; 16], InviteRecord>) -> (r: Result<InviteFrame, Error>) {
        match w.get(self) {
            Some(invite) => Ok(
                InviteFrame { invite_id: *self, secret: invite.secret, expiry: invite.expiry, consumed: invite.consumed },
            ),
            None => Err(Error::InvalidInviteOrder),
        }
    }
}

} // verus!
