//! What must hold of the journals in an archive.

use vstd::prelude::*;
use vstd::utf8::encode_utf8;
use crate::archive_frame::{AdmissionFrame, AdmissionView, ChannelBody, ChannelBodyView, CommitAckFrame, CommitAckView, ControlFrame, ControlView, CoreFrame, CoreView, DeliveryFrame, DeliveryView, ExpectedFrame, ExpectedView, HeadView, IdFrame, IdView, InviteFrame, InviteView, MemberFrame, MemberView, MembershipFrame, MembershipView, MessageFrame, MessageView, NameFrame, NameView, OutboxView, PeerFrame, PeerRouteFrame, PeerRouteView, PeerView, PendingFrame, PendingView, PolicyFrame, PolicyView, ProcessedFrame, ProcessedView, RecipientFrame, RecipientView, SessionFrame, SessionView, UnroutedFrame, UnroutedView};
use crate::bytes::{same_bytes, same_id, same_id16, text_len};
use crate::codec::{Codec, RoleFacts};
use crate::model::{views, Cell, CellView};
use crate::table::{among, distinct};

verus! {

/// What entries are checked against.
#[derive(Clone, Copy)]
pub struct Checks<'a> {
    pub version: u8,
    pub codec: &'a Codec,
}

/// An entry of an archive list, known by a key that occurs once.
pub trait Entry: View + Sized {
    type Id;

    spec fn key(v: Self::V) -> Self::Id;

    spec fn good(v: Self::V, c: Checks) -> bool;

    fn same_entry(&self, other: &Self) -> (r: bool)
        ensures
            r == (Self::key(self@) == Self::key(other@)),
    ;

    fn is_good(&self, c: Checks) -> (r: bool)
        ensures
            r == Self::good(self@, c),
    ;
}

pub open spec fn entry_keys<E: Entry>(s: Seq<E::V>) -> Seq<E::Id> {
    Seq::new(s.len(), |i: int| E::key(s[i]))
}

pub open spec fn all_good<E: Entry>(s: Seq<E::V>, c: Checks) -> bool {
    forall|i: int| 0 <= i < s.len() ==> E::good(#[trigger] s[i], c)
}

/// Whether a list holds good entries, none of them twice.
pub open spec fn in_order<E: Entry>(s: Seq<E::V>, c: Checks) -> bool {
    all_good::<E>(s, c) && distinct(entry_keys::<E>(s))
}

fn is_all_good<E: Entry>(items: &Vec<E>, c: Checks) -> (r: bool)
    ensures
        r == all_good::<E>(views(items@), c),
{
    let ghost v = views(items@);
    let mut i: usize = 0;
    while i < items.len()
        invariant
            i <= items.len(),
            v == views(items@),
            forall|j: int| 0 <= j < i ==> E::good(#[trigger] v[j], c),
        decreases items.len() - i,
    {
        if !items[i].is_good(c) {
            assert(!E::good(v[i as int], c));
            return false;
        }
        i += 1;
    }
    true
}

fn has_no_repeats<E: Entry>(items: &Vec<E>) -> (r: bool)
    ensures
        r == distinct(entry_keys::<E>(views(items@))),
{
    let ghost ks = entry_keys::<E>(views(items@));
    let mut i: usize = 0;
    while i < items.len()
        invariant
            i <= items.len(),
            ks == entry_keys::<E>(views(items@)),
            forall|a: int, b: int| 0 <= a < b < i ==> ks[a] != ks[b],
        decreases items.len() - i,
    {
        let mut j: usize = 0;
        while j < i
            invariant
                j <= i < items.len(),
                ks == entry_keys::<E>(views(items@)),
                forall|a: int| 0 <= a < j ==> ks[a] != ks[i as int],
            decreases i - j,
        {
            if items[j].same_entry(&items[i]) {
                assert(ks[j as int] == ks[i as int]);
                return false;
            }
            j += 1;
        }
        i += 1;
    }
    true
}

pub fn is_in_order<E: Entry>(items: &Vec<E>, c: Checks) -> (r: bool)
    ensures
        r == in_order::<E>(views(items@), c),
{
    is_all_good(items, c) && has_no_repeats(items)
}

/// Whether bytes begin like those of a credited session.
pub open spec fn is_credited(bytes: Seq<u8>) -> bool {
    bytes.len() >= 5 && bytes[0] == 0x47 && bytes[1] == 0x43 && bytes[2] == 0x50 && bytes[3] == 0x53 && bytes[4] == 2
}

pub fn has_credited_prefix(bytes: &[u8]) -> (r: bool)
    ensures
        r == is_credited(bytes@),
{
    bytes.len() >= 5 && bytes[0] == 0x47 && bytes[1] == 0x43 && bytes[2] == 0x50 && bytes[3] == 0x53 && bytes[4] == 2
}

/// Whether a session is in the form that its archive version keeps: unsealed at
/// first, then sealed, and credited only in the versions that know credit.
pub open spec fn session_form(bytes: Seq<u8>, c: Checks) -> bool {
    if c.version < 4 {
        views(c.codec.plain_sessions@).contains(bytes)
    } else {
        c.codec.sealed_sessions.has(bytes) && (is_credited(bytes) ==> c.version >= 20)
    }
}

impl Entry for SessionFrame {
    type Id = Seq<u8>;

    open spec fn key(v: SessionView) -> Seq<u8> {
        v.peer
    }

    open spec fn good(v: SessionView, c: Checks) -> bool {
        v.peer.len() > 0 && session_form(v.sealed, c)
    }

    fn same_entry(&self, other: &Self) -> (r: bool) {
        same_bytes(self.peer.as_slice(), other.peer.as_slice())
    }

    fn is_good(&self, c: Checks) -> (r: bool) {
        if self.peer.len() == 0 {
            return false;
        }
        if c.version < 4 {
            among(&c.codec.plain_sessions, &self.sealed)
        } else {
            c.codec.sealed_sessions.contains_key(&self.sealed) && (!has_credited_prefix(self.sealed.as_slice()) || c.version >= 20)
        }
    }
}

impl Entry for PeerRouteFrame {
    type Id = Seq<u8>;

    open spec fn key(v: PeerRouteView) -> Seq<u8> {
        v.peer
    }

    open spec fn good(v: PeerRouteView, c: Checks) -> bool {
        v.peer.len() > 0 && match c.codec.card(v.card) {
            Some(info) => info.identity_pk == v.peer && info.aliases.len() > 0,
            None => false,
        }
    }

    fn same_entry(&self, other: &Self) -> (r: bool) {
        same_bytes(self.peer.as_slice(), other.peer.as_slice())
    }

    fn is_good(&self, c: Checks) -> (r: bool) {
        self.peer.len() > 0 && match c.codec.decode_card(&self.card) {
            Some(info) => same_bytes(info.identity_pk.as_slice(), self.peer.as_slice()) && info.aliases.len() > 0,
            None => false,
        }
    }
}

pub open spec fn cells_carried(cells: Seq<CellView>, codec: Codec) -> bool {
    forall|i: int| 0 <= i < cells.len() ==> codec.carries(#[trigger] cells[i])
}

/// Whether cells are for a peer with a contact, by a relay where the version
/// names one.
pub open spec fn delivery_good(v: DeliveryView, c: Checks) -> bool {
    &&& match c.codec.card(v.card) {
        Some(info) => info.identity_pk.len() > 0 && info.aliases.len() > 0,
        None => false,
    }
    &&& c.version < 6 ==> match c.codec.private_card(v.relay) {
        Some(info) => match info.provisioning {
            Some(relay) => relay.aliases.len() > 0 && encode_utf8(relay.frwd_path).len() > 0,
            None => false,
        },
        None => false,
    }
    &&& cells_carried(v.cells, *c.codec)
}

pub fn are_cells_carried(cells: &Vec<Cell>, codec: &Codec) -> (r: bool)
    ensures
        r == cells_carried(views(cells@), *codec),
{
    let ghost v = views(cells@);
    let mut i: usize = 0;
    while i < cells.len()
        invariant
            i <= cells.len(),
            v == views(cells@),
            forall|j: int| 0 <= j < i ==> codec.carries(#[trigger] v[j]),
        decreases cells.len() - i,
    {
        if !codec.can_carry(&cells[i]) {
            assert(!codec.carries(v[i as int]));
            return false;
        }
        i += 1;
    }
    true
}

fn is_delivery_good(d: &DeliveryFrame, c: Checks) -> (r: bool)
    ensures
        r == delivery_good(d@, c),
{
    let known = match c.codec.decode_card(&d.card) {
        Some(info) => info.identity_pk.len() > 0 && info.aliases.len() > 0,
        None => false,
    };
    if !known {
        return false;
    }
    if c.version < 6 {
        let relayed = match c.codec.decode_private(&d.relay) {
            Some(info) => match &info.provisioning {
                Some(relay) => {
                    assert(relay@.aliases.len() == relay.aliases@.len());
                    relay.aliases.len() > 0 && text_len(relay.frwd_path.as_str()) > 0
                },
                None => false,
            },
            None => false,
        };
        if !relayed {
            return false;
        }
    }
    are_cells_carried(&d.cells, c.codec)
}

/// Acknowledgements have no key of their own.
impl Entry for DeliveryFrame {
    type Id = ();

    open spec fn key(v: DeliveryView) -> () {
        ()
    }

    open spec fn good(v: DeliveryView, c: Checks) -> bool {
        delivery_good(v, c) && v.cells.len() > 0
    }

    fn same_entry(&self, other: &Self) -> (r: bool) {
        true
    }

    fn is_good(&self, c: Checks) -> (r: bool) {
        assert(self@.cells.len() == self.cells@.len());
        is_delivery_good(self, c) && self.cells.len() > 0
    }
}

/// Whether a version lets a message wait without cells.
pub open spec fn may_defer(version: u8) -> bool {
    version == 16 || version >= 18
}

impl Entry for PendingFrame {
    type Id = [u8; 16];

    open spec fn key(v: PendingView) -> [u8; 16] {
        v.message_id
    }

    open spec fn good(v: PendingView, c: Checks) -> bool {
        &&& v.logical is Some ==> !c.codec.is_volatile(v.logical->0)
        &&& v.expiry_ms != 0
        &&& delivery_good(v.delivery, c)
        &&& v.delivery.cells.len() > 0 || may_defer(c.version)
    }

    fn same_entry(&self, other: &Self) -> (r: bool) {
        same_id16(&self.message_id, &other.message_id)
    }

    fn is_good(&self, c: Checks) -> (r: bool) {
        let volatile = match &self.logical {
            Some(record) => c.codec.is_volatile_application(record),
            None => false,
        };
        assert(self@.delivery.cells.len() == self.delivery.cells@.len());
        !volatile && self.expiry_ms != 0 && is_delivery_good(&self.delivery, c) && (self.delivery.cells.len() > 0 || c.version
            == 16 || c.version >= 18)
    }
}

impl Entry for ProcessedFrame {
    type Id = (Seq<u8>, u64);

    open spec fn key(v: ProcessedView) -> (Seq<u8>, u64) {
        (v.peer, v.counter)
    }

    open spec fn good(v: ProcessedView, c: Checks) -> bool {
        delivery_good(v.delivery, c) && v.delivery.cells.len() > 0
    }

    fn same_entry(&self, other: &Self) -> (r: bool) {
        same_bytes(self.peer.as_slice(), other.peer.as_slice()) && self.counter == other.counter
    }

    fn is_good(&self, c: Checks) -> (r: bool) {
        assert(self@.delivery.cells.len() == self.delivery.cells@.len());
        is_delivery_good(&self.delivery, c) && self.delivery.cells.len() > 0
    }
}

/// Whether the sequence numbers of waiting messages are in use, once each.
pub open spec fn sequences_in_order(pending: Seq<PendingView>, next: u64) -> bool {
    &&& next != 0
    &&& forall|i: int| 0 <= i < pending.len() ==> 0 < (#[trigger] pending[i]).sequence < next
    &&& forall|i: int, j: int| 0 <= i < j < pending.len() ==> (#[trigger] pending[i]).sequence != (#[trigger] pending[j]).sequence
}

fn are_sequences_in_order(pending: &Vec<PendingFrame>, next: u64) -> (r: bool)
    ensures
        r == sequences_in_order(views(pending@), next),
{
    let ghost v = views(pending@);
    if next == 0 {
        return false;
    }
    let mut i: usize = 0;
    while i < pending.len()
        invariant
            i <= pending.len(),
            v == views(pending@),
            next != 0,
            forall|a: int| 0 <= a < i ==> 0 < (#[trigger] v[a]).sequence < next,
            forall|a: int, b: int| 0 <= a < b < i ==> (#[trigger] v[a]).sequence != (#[trigger] v[b]).sequence,
        decreases pending.len() - i,
    {
        assert(v[i as int] == pending@[i as int]@);
        if pending[i].sequence == 0 || pending[i].sequence >= next {
            return false;
        }
        let mut j: usize = 0;
        while j < i
            invariant
                j <= i < pending.len(),
                v == views(pending@),
                forall|a: int| 0 <= a < j ==> (#[trigger] v[a]).sequence != v[i as int].sequence,
            decreases i - j,
        {
            assert(v[j as int] == pending@[j as int]@ && v[i as int] == pending@[i as int]@);
            if pending[j].sequence == pending[i].sequence {
                return false;
            }
            j += 1;
        }
        i += 1;
    }
    true
}

/// Messages that wait, numbered from one on.
pub open spec fn numbered_pending(s: Seq<PendingView>) -> Seq<PendingView> {
    Seq::new(s.len(), |i: int| PendingView { sequence: (i + 1) as u64, ..s[i] })
}

/// The head of an archive and its direct journals, with messages numbered by their
/// place where the version does not number them.
pub open spec fn numbered(v: CoreView, version: u8) -> CoreView {
    if version < 5 {
        CoreView {
            head: HeadView {
                next_direct_sequence: if v.pending.len() < u64::MAX {
                    (v.pending.len() + 1) as u64
                } else {
                    u64::MAX
                },
                ..v.head
            },
            pending: numbered_pending(v.pending),
            ..v
        }
    } else {
        v
    }
}

pub fn number_core(core: CoreFrame, version: u8) -> (r: CoreFrame)
    ensures
        r@ == numbered(core@, version),
{
    if version >= 5 {
        return core;
    }
    let ghost before = core;
    let mut core = core;
    let ghost v = views(core.pending@);
    let mut i: usize = 0;
    while i < core.pending.len()
        invariant
            i <= core.pending.len(),
            core.pending@.len() == v.len(),
            core == (CoreFrame { pending: core.pending, ..before }),
            forall|j: int| 0 <= j < i ==> (#[trigger] core.pending@[j])@ == (PendingView { sequence: (j + 1) as u64, ..v[j] }),
            forall|j: int| i <= j < v.len() ==> (#[trigger] core.pending@[j])@ == v[j],
        decreases core.pending.len() - i,
    {
        core.pending[i].sequence = i as u64 + 1;
        i += 1;
    }
    core.head.next_direct_sequence = (core.pending.len() as u64).saturating_add(1);
    assert(views(core.pending@) =~= numbered_pending(v));
    core
}

/// Whether the head of an archive and its direct journals are in order.
#[verifier::opaque]
pub open spec fn core_good(v: CoreView, c: Checks) -> bool {
    &&& v.head.local_contact_generation != 0
    &&& in_order::<SessionFrame>(v.sessions, c)
    &&& in_order::<PeerRouteFrame>(v.peer_routes, c)
    &&& in_order::<PendingFrame>(v.pending, c)
    &&& sequences_in_order(v.pending, v.head.next_direct_sequence)
    &&& all_good::<DeliveryFrame>(v.acks, c)
    &&& in_order::<ProcessedFrame>(v.processed, c)
}

pub fn is_core_good(core: &CoreFrame, c: Checks) -> (r: bool)
    ensures
        r == core_good(core@, c),
{
    proof {
        reveal(core_good);
    }
    core.head.local_contact_generation != 0 && is_in_order(&core.sessions, c) && is_in_order(&core.peer_routes, c)
        && is_in_order(&core.pending, c) && are_sequences_in_order(&core.pending, core.head.next_direct_sequence) && is_all_good(
        &core.acks,
        c,
    ) && is_in_order(&core.processed, c)
}

/// Routes that decode are all that control traffic needs.
impl Entry for ControlFrame {
    type Id = ();

    open spec fn key(v: ControlView) -> () {
        ()
    }

    open spec fn good(v: ControlView, c: Checks) -> bool {
        c.codec.route(v.route) is Some
    }

    fn same_entry(&self, other: &Self) -> (r: bool) {
        true
    }

    fn is_good(&self, c: Checks) -> (r: bool) {
        c.codec.decode_route(&self.route).is_some()
    }
}

impl Entry for AdmissionFrame {
    type Id = [u8; 32];

    open spec fn key(v: AdmissionView) -> [u8; 32] {
        v.request_id
    }

    open spec fn good(v: AdmissionView, c: Checks) -> bool {
        encode_utf8(v.name).len() > 0 && v.welcome.len() > 0
    }

    fn same_entry(&self, other: &Self) -> (r: bool) {
        same_id(&self.request_id, &other.request_id)
    }

    fn is_good(&self, c: Checks) -> (r: bool) {
        text_len(self.name.as_str()) > 0 && self.welcome.len() > 0
    }
}

impl Entry for CommitAckFrame {
    type Id = [u8; 16];

    open spec fn key(v: CommitAckView) -> [u8; 16] {
        v.message_id
    }

    open spec fn good(v: CommitAckView, c: Checks) -> bool {
        c.codec.route(v.route) is Some && v.wire.len() > 0
    }

    fn same_entry(&self, other: &Self) -> (r: bool) {
        same_id16(&self.message_id, &other.message_id)
    }

    fn is_good(&self, c: Checks) -> (r: bool) {
        c.codec.decode_route(&self.route).is_some() && self.wire.len() > 0
    }
}

impl Entry for InviteFrame {
    type Id = [u8; 16];

    open spec fn key(v: InviteView) -> [u8; 16] {
        v.invite_id
    }

    open spec fn good(v: InviteView, c: Checks) -> bool {
        true
    }

    fn same_entry(&self, other: &Self) -> (r: bool) {
        same_id16(&self.invite_id, &other.invite_id)
    }

    fn is_good(&self, c: Checks) -> (r: bool) {
        true
    }
}

impl Entry for RecipientFrame {
    type Id = [u8; 32];

    open spec fn key(v: RecipientView) -> [u8; 32] {
        v.identity
    }

    open spec fn good(v: RecipientView, c: Checks) -> bool {
        match c.codec.route(v.route) {
            Some(route) => route.pseudonym == v.identity,
            None => false,
        }
    }

    fn same_entry(&self, other: &Self) -> (r: bool) {
        same_id(&self.identity, &other.identity)
    }

    fn is_good(&self, c: Checks) -> (r: bool) {
        match c.codec.decode_route(&self.route) {
            Some(route) => same_id(&route.pseudonym, &self.identity),
            None => false,
        }
    }
}

impl Entry for IdFrame {
    type Id = [u8; 32];

    open spec fn key(v: IdView) -> [u8; 32] {
        v.id
    }

    open spec fn good(v: IdView, c: Checks) -> bool {
        true
    }

    fn same_entry(&self, other: &Self) -> (r: bool) {
        same_id(&self.id, &other.id)
    }

    fn is_good(&self, c: Checks) -> (r: bool) {
        true
    }
}

impl Entry for PeerFrame {
    type Id = Seq<u8>;

    open spec fn key(v: PeerView) -> Seq<u8> {
        v.peer
    }

    open spec fn good(v: PeerView, c: Checks) -> bool {
        v.peer.len() > 0
    }

    fn same_entry(&self, other: &Self) -> (r: bool) {
        same_bytes(self.peer.as_slice(), other.peer.as_slice())
    }

    fn is_good(&self, c: Checks) -> (r: bool) {
        self.peer.len() > 0
    }
}

/// Channels, known by their name.
impl Entry for NameFrame {
    type Id = Seq<char>;

    open spec fn key(v: NameView) -> Seq<char> {
        v.name
    }

    open spec fn good(v: NameView, c: Checks) -> bool {
        true
    }

    fn same_entry(&self, other: &Self) -> (r: bool) {
        self.name == other.name
    }

    fn is_good(&self, c: Checks) -> (r: bool) {
        true
    }
}

/// Whether every identifier is that of a recipient.
pub open spec fn ids_expected(ids: Seq<IdView>, expected: Seq<RecipientView>) -> bool {
    forall|i: int| 0 <= i < ids.len() ==> entry_keys::<RecipientFrame>(expected).contains((#[trigger] ids[i]).id)
}

fn are_ids_expected(ids: &Vec<IdFrame>, expected: &Vec<RecipientFrame>) -> (r: bool)
    ensures
        r == ids_expected(views(ids@), views(expected@)),
{
    let ghost v = views(ids@);
    let ghost ks = entry_keys::<RecipientFrame>(views(expected@));
    let mut i: usize = 0;
    while i < ids.len()
        invariant
            i <= ids.len(),
            v == views(ids@),
            ks == entry_keys::<RecipientFrame>(views(expected@)),
            forall|a: int| 0 <= a < i ==> ks.contains((#[trigger] v[a]).id),
        decreases ids.len() - i,
    {
        let mut found = false;
        let mut j: usize = 0;
        while j < expected.len() && !found
            invariant
                j <= expected.len(),
                i < ids.len(),
                v == views(ids@),
                ks == entry_keys::<RecipientFrame>(views(expected@)),
                found ==> ks.contains(v[i as int].id),
                !found ==> forall|b: int| 0 <= b < j ==> ks[b] != v[i as int].id,
            decreases expected.len() - j,
        {
            assert(ks[j as int] == expected@[j as int].identity);
            if same_id(&expected[j].identity, &ids[i].id) {
                found = true;
            }
            j += 1;
        }
        if !found {
            assert(!ks.contains(v[i as int].id));
            return false;
        }
        i += 1;
    }
    true
}

/// Whether some recipients, and not all of them, have answered.
pub open spec fn recipients_good(v: ExpectedView, c: Checks) -> bool {
    &&& in_order::<RecipientFrame>(v.expected, c)
    &&& ids_expected(v.acknowledged, v.expected)
    &&& in_order::<IdFrame>(v.acknowledged, c)
    &&& v.expected.len() > 0
    &&& v.acknowledged.len() != v.expected.len()
}

fn are_recipients_good(e: &ExpectedFrame, c: Checks) -> (r: bool)
    ensures
        r == recipients_good(e@, c),
{
    assert(e@.expected.len() == e.expected@.len() && e@.acknowledged.len() == e.acknowledged@.len());
    is_in_order(&e.expected, c) && are_ids_expected(&e.acknowledged, &e.expected) && is_in_order(&e.acknowledged, c)
        && e.expected.len() > 0 && e.acknowledged.len() != e.expected.len()
}

/// A channel's name and role, with what entries are checked against.
#[derive(Clone, Copy)]
pub struct ChannelChecks<'a> {
    pub c: Checks<'a>,
    pub name: &'a String,
    pub role: &'a RoleFacts,
}

pub struct ChannelFacts<'a> {
    pub c: Checks<'a>,
    pub name: Seq<char>,
    pub role: RoleFacts,
}

impl<'a> ChannelChecks<'a> {
    pub open spec fn facts(self) -> ChannelFacts<'a> {
        ChannelFacts { c: self.c, name: self.name@, role: *self.role }
    }
}

pub open spec fn members_good(s: Seq<MemberView>, k: ChannelFacts) -> bool {
    &&& forall|i: int|
        0 <= i < s.len() ==> encode_utf8((#[trigger] s[i]).member).len() > 0 && match k.c.codec.route(s[i].route) {
            Some(route) => route.pseudonym != k.role.pseudonym,
            None => false,
        }
    &&& forall|i: int, j: int| 0 <= i < j < s.len() ==> (#[trigger] s[i]).member != (#[trigger] s[j]).member
}

fn are_members_good(s: &Vec<MemberFrame>, k: ChannelChecks) -> (r: bool)
    ensures
        r == members_good(views(s@), k.facts()),
{
    let ghost v = views(s@);
    let mut i: usize = 0;
    while i < s.len()
        invariant
            i <= s.len(),
            v == views(s@),
            forall|a: int|
                0 <= a < i ==> encode_utf8((#[trigger] v[a]).member).len() > 0 && match k.c.codec.route(v[a].route) {
                    Some(route) => route.pseudonym != k.role.pseudonym,
                    None => false,
                },
            forall|a: int, b: int| 0 <= a < b < i ==> (#[trigger] v[a]).member != (#[trigger] v[b]).member,
        decreases s.len() - i,
    {
        assert(v[i as int] == s@[i as int]@);
        let known = match k.c.codec.decode_route(&s[i].route) {
            Some(route) => !same_id(&route.pseudonym, &k.role.pseudonym),
            None => false,
        };
        if text_len(s[i].member.as_str()) == 0 || !known {
            return false;
        }
        let mut j: usize = 0;
        while j < i
            invariant
                j <= i < s.len(),
                v == views(s@),
                forall|a: int| 0 <= a < j ==> (#[trigger] v[a]).member != v[i as int].member,
            decreases i - j,
        {
            assert(v[j as int] == s@[j as int]@ && v[i as int] == s@[i as int]@);
            if s[j].member == s[i].member {
                return false;
            }
            j += 1;
        }
        i += 1;
    }
    true
}

/// Whether the role still knows a member by the pseudonym of its route.
pub open spec fn is_current(v: MemberView, k: ChannelFacts) -> bool {
    match k.c.codec.route(v.route) {
        Some(route) => k.role.named(v.member) == Some(route.pseudonym),
        None => false,
    }
}

/// Those of the first `n` members that the role still knows so.
pub open spec fn current_members(s: Seq<MemberView>, n: nat, k: ChannelFacts) -> Seq<MemberView>
    decreases n,
{
    if n == 0 {
        Seq::empty()
    } else if is_current(s[n - 1], k) {
        current_members(s, (n - 1) as nat, k).push(s[n - 1])
    } else {
        current_members(s, (n - 1) as nat, k)
    }
}

/// A channel's journals, with the directory held to the role: a route that was left
/// behind by a member who is gone, or is someone else now, is not kept.
pub open spec fn reconciled(v: ChannelBodyView, k: ChannelFacts) -> ChannelBodyView {
    ChannelBodyView {
        outbox: OutboxView { directory: current_members(v.outbox.directory, v.outbox.directory.len(), k), ..v.outbox },
        ..v
    }
}

/// Whether every member of a directory is one that the role knows so.
pub open spec fn all_current(s: Seq<MemberView>, k: ChannelFacts) -> bool {
    forall|i: int| 0 <= i < s.len() ==> is_current(#[trigger] s[i], k)
}

fn keep_current(s: Vec<MemberFrame>, k: ChannelChecks) -> (r: Vec<MemberFrame>)
    ensures
        views(r@) == current_members(views(s@), s@.len(), k.facts()),
{
    let mut s = s;
    let ghost v = views(s@);
    let ghost all = s@;
    let n: usize = s.len();
    let mut out: Vec<MemberFrame> = Vec::new();
    let mut i: usize = 0;
    assert(views(out@) =~= Seq::<MemberView>::empty());
    while i < n
        invariant
            i <= n,
            n == all.len(),
            v == views(all),
            s@ == all.skip(i as int),
            views(out@) == current_members(v, i as nat, k.facts()),
        decreases n - i,
    {
        let member = s.remove(0);
        assert(s@ =~= all.skip(i + 1));
        assert(member == all[i as int]);
        assert(v[i as int] == member@);
        let current = match k.c.codec.decode_route(&member.route) {
            Some(route) => match k.role.pseudonym_for_name(&member.member) {
                Some(id) => same_id(&id, &route.pseudonym),
                None => false,
            },
            None => false,
        };
        if current {
            let ghost before = views(out@);
            out.push(member);
            assert(views(out@) =~= before.push(v[i as int]));
        }
        i += 1;
    }
    out
}

/// Holds a channel's directory to its role.
pub fn reconcile(b: ChannelBody, k: ChannelChecks) -> (r: ChannelBody)
    ensures
        r@ == reconciled(b@, k.facts()),
{
    let mut b = b;
    let directory = b.outbox.directory;
    b.outbox.directory = keep_current(directory, k);
    b
}

proof fn lemma_current(s: Seq<MemberView>, n: nat, k: ChannelFacts)
    requires
        n <= s.len(),
    ensures
        all_current(current_members(s, n, k), k),
        members_good(s, k) ==> members_good(current_members(s, n, k), k),
        forall|i: int|
            0 <= i < current_members(s, n, k).len() ==> exists|j: int| 0 <= j < n && s[j] == #[trigger] current_members(s, n, k)[i],
    decreases n,
{
    if n > 0 {
        lemma_current(s, (n - 1) as nat, k);
        let before = current_members(s, (n - 1) as nat, k);
        let now = current_members(s, n, k);
        if is_current(s[n - 1], k) {
            assert(now =~= before.push(s[n - 1]));
            assert forall|i: int| 0 <= i < now.len() implies exists|j: int| 0 <= j < n && s[j] == #[trigger] now[i] by {
                if i < before.len() {
                    assert(now[i] == before[i]);
                } else {
                    assert(s[n - 1] == now[i]);
                }
            }
            if members_good(s, k) {
                assert forall|i: int, j: int| 0 <= i < j < now.len() implies (#[trigger] now[i]).member != (#[trigger] now[j]).member by {
                    if j < before.len() {
                        assert(before[i].member != before[j].member);
                    } else {
                        assert(now[i] == before[i]);
                        let m = choose|m: int| 0 <= m < n - 1 && s[m] == before[i];
                        assert(s[m].member != s[n - 1].member);
                    }
                }
                assert forall|i: int| 0 <= i < now.len() implies encode_utf8((#[trigger] now[i]).member).len() > 0 && match k.c.codec.route(now[i].route) {
                    Some(route) => route.pseudonym != k.role.pseudonym,
                    None => false,
                } by {
                    if i < before.len() {
                        assert(now[i] == before[i]);
                    } else {
                        assert(now[i] == s[n - 1]);
                    }
                }
            }
        }
    }
}

/// A directory that is held to its role names current members only, and journals
/// that were in order stay so.
pub proof fn reconciling_keeps_order(v: ChannelBodyView, k: ChannelFacts)
    ensures
        all_current(reconciled(v, k).outbox.directory, k),
        body_good(v, k) ==> body_good(reconciled(v, k), k),
{
    reveal(body_good);
    lemma_current(v.outbox.directory, v.outbox.directory.len(), k);
}

pub open spec fn message_good(v: MessageView, k: ChannelFacts) -> bool {
    k.c.codec.message_id(k.name, v.wire) == Some(v.message_id) && recipients_good(v.recipients, k.c)
}

pub open spec fn messages_good(s: Seq<MessageView>, k: ChannelFacts) -> bool {
    &&& forall|i: int| 0 <= i < s.len() ==> message_good(#[trigger] s[i], k)
    &&& forall|i: int, j: int| 0 <= i < j < s.len() ==> (#[trigger] s[i]).message_id != (#[trigger] s[j]).message_id
}

fn are_messages_good(s: &Vec<MessageFrame>, k: ChannelChecks) -> (r: bool)
    ensures
        r == messages_good(views(s@), k.facts()),
{
    let ghost v = views(s@);
    let mut i: usize = 0;
    while i < s.len()
        invariant
            i <= s.len(),
            v == views(s@),
            forall|a: int| 0 <= a < i ==> message_good(#[trigger] v[a], k.facts()),
            forall|a: int, b: int| 0 <= a < b < i ==> (#[trigger] v[a]).message_id != (#[trigger] v[b]).message_id,
        decreases s.len() - i,
    {
        assert(v[i as int] == s@[i as int]@);
        let named = match k.c.codec.msg_id(k.name, &s[i].wire) {
            Some(id) => same_id16(&id, &s[i].message_id),
            None => false,
        };
        if !named || !are_recipients_good(&s[i].recipients, k.c) {
            assert(!message_good(v[i as int], k.facts()));
            return false;
        }
        let mut j: usize = 0;
        while j < i
            invariant
                j <= i < s.len(),
                v == views(s@),
                forall|a: int| 0 <= a < j ==> (#[trigger] v[a]).message_id != v[i as int].message_id,
            decreases i - j,
        {
            assert(v[j as int] == s@[j as int]@ && v[i as int] == s@[i as int]@);
            if same_id16(&s[j].message_id, &s[i].message_id) {
                return false;
            }
            j += 1;
        }
        i += 1;
    }
    true
}

pub open spec fn membership_good(o: Option<MembershipView>, k: ChannelFacts) -> bool {
    match o {
        None => true,
        Some(v) => k.c.codec.message_id(k.name, v.commit) == Some(v.commit_id) && recipients_good(v.recipients, k.c),
    }
}

fn is_membership_good(o: &Option<MembershipFrame>, k: ChannelChecks) -> (r: bool)
    ensures
        r == membership_good(crate::record::maybe_view(*o), k.facts()),
{
    match o {
        None => true,
        Some(f) => {
            let named = match k.c.codec.msg_id(k.name, &f.commit) {
                Some(id) => same_id16(&id, &f.commit_id),
                None => false,
            };
            named && are_recipients_good(&f.recipients, k.c)
        },
    }
}

/// The typed key of a removal: stored as such, or known by the member's name.
pub open spec fn removal_key(stored: Seq<char>, c: Checks) -> Option<Seq<char>> {
    if encode_utf8(stored).len() == 0 {
        None
    } else if c.version >= 8 {
        if views(c.codec.removal_keys@).contains(stored) {
            Some(stored)
        } else {
            None
        }
    } else {
        match c.codec.legacy_removal_keys.lookup(stored) {
            Some(key) => Some(key@),
            None => None,
        }
    }
}

pub fn typed_removal_key(stored: &String, c: Checks) -> (r: Option<String>)
    ensures
        crate::record::maybe_view(r) == removal_key(stored@, c),
{
    if text_len(stored.as_str()) == 0 {
        None
    } else if c.version >= 8 {
        if among(&c.codec.removal_keys, stored) {
            Some(stored.clone())
        } else {
            None
        }
    } else {
        match c.codec.legacy_removal_keys.get(stored) {
            Some(key) => Some(key.clone()),
            None => None,
        }
    }
}

pub open spec fn removals_good(s: Seq<NameView>, c: Checks) -> bool {
    &&& forall|i: int| 0 <= i < s.len() ==> removal_key((#[trigger] s[i]).name, c) is Some
    &&& forall|i: int, j: int|
        0 <= i < j < s.len() ==> removal_key((#[trigger] s[i]).name, c) != removal_key((#[trigger] s[j]).name, c)
}

fn are_removals_good(s: &Vec<NameFrame>, c: Checks) -> (r: bool)
    ensures
        r == removals_good(views(s@), c),
{
    let ghost v = views(s@);
    let mut keys: Vec<String> = Vec::new();
    let mut i: usize = 0;
    while i < s.len()
        invariant
            i <= s.len(),
            v == views(s@),
            keys@.len() == i,
            forall|a: int| 0 <= a < i ==> removal_key((#[trigger] v[a]).name, c) == Some(keys@[a]@),
            forall|a: int, b: int|
                0 <= a < b < i ==> removal_key((#[trigger] v[a]).name, c) != removal_key((#[trigger] v[b]).name, c),
        decreases s.len() - i,
    {
        assert(v[i as int] == s@[i as int]@);
        match typed_removal_key(&s[i].name, c) {
            None => {
                return false;
            },
            Some(key) => {
                if among(&keys, &key) {
                    proof {
                        let a = views(keys@).index_of(key@);
                        assert(removal_key(v[a].name, c) == removal_key(v[i as int].name, c));
                    }
                    return false;
                }
                assert forall|a: int| 0 <= a < i implies removal_key((#[trigger] v[a]).name, c) != removal_key(v[i as int].name, c) by {
                    assert(views(keys@)[a] == keys@[a]@);
                }
                keys.push(key);
            },
        }
        i += 1;
    }
    true
}

pub open spec fn unrouted_good(s: Seq<UnroutedView>, k: ChannelFacts) -> bool {
    &&& forall|i: int|
        0 <= i < s.len() ==> (#[trigger] s[i]).sender != k.role.pseudonym && k.role.enrolls(s[i].sender) && s[i].wire.len() > 0
    &&& forall|i: int, j: int|
        0 <= i < j < s.len() ==> !((#[trigger] s[i]).original_id == (#[trigger] s[j]).original_id && s[i].sender == s[j].sender)
}

fn are_unrouted_good(s: &Vec<UnroutedFrame>, k: ChannelChecks) -> (r: bool)
    ensures
        r == unrouted_good(views(s@), k.facts()),
{
    let ghost v = views(s@);
    let mut i: usize = 0;
    while i < s.len()
        invariant
            i <= s.len(),
            v == views(s@),
            forall|a: int|
                0 <= a < i ==> (#[trigger] v[a]).sender != k.role.pseudonym && k.role.enrolls(v[a].sender) && v[a].wire.len() > 0,
            forall|a: int, b: int|
                0 <= a < b < i ==> !((#[trigger] v[a]).original_id == (#[trigger] v[b]).original_id && v[a].sender == v[b].sender),
        decreases s.len() - i,
    {
        assert(v[i as int] == s@[i as int]@);
        if same_id(&s[i].sender, &k.role.pseudonym) || !k.role.is_member(&s[i].sender) || s[i].wire.len() == 0 {
            return false;
        }
        let mut j: usize = 0;
        while j < i
            invariant
                j <= i < s.len(),
                v == views(s@),
                forall|a: int|
                    0 <= a < j ==> !((#[trigger] v[a]).original_id == v[i as int].original_id && v[a].sender == v[i as int].sender),
            decreases i - j,
        {
            assert(v[j as int] == s@[j as int]@ && v[i as int] == s@[i as int]@);
            if same_id16(&s[j].original_id, &s[i].original_id) && same_id(&s[j].sender, &s[i].sender) {
                return false;
            }
            j += 1;
        }
        i += 1;
    }
    true
}

pub open spec fn own_name_good(o: Option<Seq<char>>, role: RoleFacts) -> bool {
    match o {
        None => true,
        Some(name) => encode_utf8(name).len() > 0 && role.named(name) == Some(role.pseudonym),
    }
}

fn is_own_name_good(o: &Option<String>, role: &RoleFacts) -> (r: bool)
    ensures
        r == own_name_good(crate::record::maybe_view(*o), *role),
{
    match o {
        None => true,
        Some(name) => text_len(name.as_str()) > 0 && match role.pseudonym_for_name(name) {
            Some(id) => same_id(&id, &role.pseudonym),
            None => false,
        },
    }
}

/// Whether a channel's journals and ledgers are in order for its role.
#[verifier::opaque]
pub open spec fn body_good(v: ChannelBodyView, k: ChannelFacts) -> bool {
    &&& own_name_good(v.outbox.own_name, k.role)
    &&& members_good(v.outbox.directory, k)
    &&& messages_good(v.outbox.messages, k)
    &&& membership_good(v.outbox.membership, k)
    &&& all_good::<ControlFrame>(v.ledger.control, k.c)
    &&& in_order::<AdmissionFrame>(v.ledger.admissions, k.c)
    &&& removals_good(v.ledger.removals, k.c)
    &&& in_order::<CommitAckFrame>(v.ledger.commit_acks, k.c)
    &&& unrouted_good(v.ledger.unrouted, k)
    &&& in_order::<InviteFrame>(v.ledger.invites, k.c)
}

pub fn is_body_good(b: &ChannelBody, k: ChannelChecks) -> (r: bool)
    ensures
        r == body_good(b@, k.facts()),
{
    proof {
        reveal(body_good);
    }
    is_own_name_good(&b.outbox.own_name, k.role) && are_members_good(&b.outbox.directory, k) && are_messages_good(
        &b.outbox.messages,
        k,
    ) && is_membership_good(&b.outbox.membership, k) && is_all_good(&b.ledger.control, k.c) && is_in_order(
        &b.ledger.admissions,
        k.c,
    ) && are_removals_good(&b.ledger.removals, k.c) && is_in_order(&b.ledger.commit_acks, k.c) && are_unrouted_good(
        &b.ledger.unrouted,
        k,
    ) && is_in_order(&b.ledger.invites, k.c)
}

/// Whether presence policy names peers, and channels that are there.
#[verifier::opaque]
pub open spec fn policy_good(v: PolicyView, channels: Seq<Seq<char>>, c: Checks) -> bool {
    &&& in_order::<PeerFrame>(v.peers, c)
    &&& in_order::<NameFrame>(v.channels, c)
    &&& forall|i: int| 0 <= i < v.channels.len() ==> channels.contains((#[trigger] v.channels[i]).name)
}

pub fn is_policy_good(f: &PolicyFrame, channels: &Vec<String>, c: Checks) -> (r: bool)
    ensures
        r == policy_good(f@, views(channels@), c),
{
    proof {
        reveal(policy_good);
    }
    if !is_in_order(&f.peers, c) || !is_in_order(&f.channels, c) {
        return false;
    }
    let ghost v = f@.channels;
    let mut i: usize = 0;
    while i < f.channels.len()
        invariant
            i <= f.channels.len(),
            v == views(f.channels@),
            forall|a: int| 0 <= a < i ==> views(channels@).contains((#[trigger] v[a]).name),
        decreases f.channels.len() - i,
    {
        assert(v[i as int] == f.channels@[i as int]@);
        if !among(channels, &f.channels[i].name) {
            proof {
                reveal(policy_good);
            }
            return false;
        }
        i += 1;
    }
    true
}

} // verus!
