//! What the host's codecs say of the values and byte strings in play.
//!
//! Cards, routes, leases and session contexts have encodings of their own. The
//! host works them out and lists them here; a value that is not listed has no
//! encoding, and a byte string that is not listed decodes to nothing. Which byte
//! strings an archive asks about is told by `archive_strings` and `legacy_strings`.

use vstd::prelude::*;
use vstd::utf8::encode_utf8;
use crate::archive_frame::{CentralOwnership, CentralView, InboxEntryFrame};
use crate::bytes::{copy_bytes, put_bytes, same_bytes, same_id};
use crate::error::Error;
use crate::model::{views, Cell, CellView, ChannelRoute, NodeInfo, NodeInfoView, OwnedAlias, OwnedAliasView, RelayTarget};
use crate::seal::{ContextView, SessionContext};
use crate::table::{among, key_for, lemma_place, lemma_place_is, place, value_views, Key, Table};

verus! {

/// Numbers that the surrounding protocol fixes.
#[derive(Clone, Copy, Debug, PartialEq, Eq, Structural)]
pub struct Protocol {
    /// The type byte of a relay administration cell.
    pub relay_sub: u8,
    /// The type byte of a forwarding cell.
    pub frwd: u8,
    pub op_relay_challenge: u8,
    pub op_relay_admission: u8,
    pub op_grant_request: u8,
    pub op_create: u8,
    pub op_renew: u8,
    pub op_rotate: u8,
    pub op_revoke: u8,
    pub lease_create_len: usize,
    pub lease_renew_len: usize,
    pub channel_max: usize,
    pub channel_ack_limit: usize,
    pub forward_grants_max: usize,
    pub application_inbox_limit: usize,
    pub receipts_max: usize,
}

/// The keys that the host derives from the node's seed.
#[derive(Debug)]
pub struct NodeKeys {
    pub seed: [u8; 32],
    pub identity_public: Vec<u8>,
    /// Seals channel state and the owner's own material.
    pub archive_key: [u8; 32],
    /// Wraps direct sessions and what belongs to them.
    pub wrapping_key: [u8; 32],
}

/// A lease renewal that the host found good: the alias as renewed, and the
/// renewal operation where there is one.
#[derive(Debug)]
pub struct Renewal {
    pub alias: OwnedAlias,
    pub wire: Option<Vec<u8>>,
}

pub open spec fn opt_view(o: Option<Vec<u8>>) -> Option<Seq<u8>> {
    match o {
        Some(v) => Some(v@),
        None => None,
    }
}

/// What a channel role says of itself, once its sealed form is restored.
#[derive(Debug)]
pub struct RoleFacts {
    pub pseudonym: [u8; 32],
    pub channel_id: Vec<u8>,
    /// The members whose name the role knows.
    pub names: Table<String, [u8; 32]>,
    pub roster: Vec<String>,
}

impl RoleFacts {
    pub open spec fn named(self, name: Seq<char>) -> Option<[u8; 32]> {
        self.names.lookup(name)
    }

    /// The member behind a name.
    pub fn pseudonym_for_name(&self, name: &String) -> (r: Option<[u8; 32]>)
        ensures
            r == self.named(name@),
    {
        match self.names.get(name) {
            Some(id) => Some(*id),
            None => None,
        }
    }

    /// Whether a member of the roster goes by a pseudonym.
    pub open spec fn enrolls(self, pseudonym: [u8; 32]) -> bool {
        exists|i: int| 0 <= i < self.roster@.len() && self.named((#[trigger] self.roster@[i])@) == Some(pseudonym)
    }

    pub fn is_member(&self, pseudonym: &[u8; 32]) -> (r: bool)
        ensures
            r == self.enrolls(*pseudonym),
    {
        let mut i: usize = 0;
        while i < self.roster.len()
            invariant
                i <= self.roster.len(),
                forall|j: int| 0 <= j < i ==> self.named((#[trigger] self.roster@[j])@) != Some(*pseudonym),
            decreases self.roster.len() - i,
        {
            match self.pseudonym_for_name(&self.roster[i]) {
                Some(id) => {
                    if same_id(&id, pseudonym) {
                        return true;
                    }
                },
                None => {},
            }
            i += 1;
        }
        false
    }
}

/// A sealed channel role: whose it is, the channel's name and the sealed bytes.
#[derive(Debug)]
pub struct RoleKey {
    pub owner: bool,
    pub name: String,
    pub blob: Vec<u8>,
}

impl View for RoleKey {
    type V = (bool, Seq<char>, Seq<u8>);

    open spec fn view(&self) -> (bool, Seq<char>, Seq<u8>) {
        (self.owner, self.name@, self.blob@)
    }
}

impl Key for RoleKey {
    fn same_key(&self, other: &Self) -> (r: bool) {
        self.owner == other.owner && self.name == other.name && same_bytes(self.blob.as_slice(), other.blob.as_slice())
    }

    fn copy_key(&self) -> (r: Self) {
        RoleKey { owner: self.owner, name: self.name.clone(), blob: copy_bytes(self.blob.as_slice()) }
    }
}

/// A message of a channel.
#[derive(Debug)]
pub struct WireKey {
    pub channel: String,
    pub wire: Vec<u8>,
}

impl View for WireKey {
    type V = (Seq<char>, Seq<u8>);

    open spec fn view(&self) -> (Seq<char>, Seq<u8>) {
        (self.channel@, self.wire@)
    }
}

impl Key for WireKey {
    fn same_key(&self, other: &Self) -> (r: bool) {
        self.channel == other.channel && same_bytes(self.wire.as_slice(), other.wire.as_slice())
    }

    fn copy_key(&self) -> (r: Self) {
        WireKey { channel: self.channel.clone(), wire: copy_bytes(self.wire.as_slice()) }
    }
}

/// What a channel-direct secret is derived from.
#[derive(Debug)]
pub struct SecretKey {
    pub seed: [u8; 32],
    pub pseudonym: [u8; 32],
}

impl View for SecretKey {
    type V = (Seq<u8>, Seq<u8>);

    open spec fn view(&self) -> (Seq<u8>, Seq<u8>) {
        (self.seed@, self.pseudonym@)
    }
}

impl Key for SecretKey {
    fn same_key(&self, other: &Self) -> (r: bool) {
        same_bytes(&self.seed, &other.seed) && same_bytes(&self.pseudonym, &other.pseudonym)
    }

    fn copy_key(&self) -> (r: Self) {
        SecretKey { seed: self.seed, pseudonym: self.pseudonym }
    }
}

/// A grant to forward through a relay.
#[derive(Debug, PartialEq, Eq)]
pub struct ForwardGrant {
    pub target: RelayTarget,
    pub frwd_path: String,
    pub hop_key: [u8; 32],
    pub expires_at: u64,
    pub issued_by: Vec<u8>,
}

pub struct GrantView {
    pub target: RelayTarget,
    pub frwd_path: Seq<char>,
    pub hop_key: [u8; 32],
    pub expires_at: u64,
    pub issued_by: Seq<u8>,
}

impl View for ForwardGrant {
    type V = GrantView;

    open spec fn view(&self) -> GrantView {
        GrantView {
            target: self.target,
            frwd_path: self.frwd_path@,
            hop_key: self.hop_key,
            expires_at: self.expires_at,
            issued_by: self.issued_by@,
        }
    }
}

impl Clone for ForwardGrant {
    fn clone(&self) -> (r: Self)
        ensures
            r@ == self@,
    {
        ForwardGrant {
            target: self.target,
            frwd_path: self.frwd_path.clone(),
            hop_key: self.hop_key,
            expires_at: self.expires_at,
            issued_by: copy_bytes(self.issued_by.as_slice()),
        }
    }
}

impl ForwardGrant {
    pub fn same(&self, other: &ForwardGrant) -> (r: bool)
        ensures
            r == (self@ == other@),
    {
        self.target.same(&other.target) && self.frwd_path == other.frwd_path && same_id(&self.hop_key, &other.hop_key)
            && self.expires_at == other.expires_at && same_bytes(self.issued_by.as_slice(), other.issued_by.as_slice())
    }
}

#[derive(Debug)]
pub struct Codec {
    /// Session contexts with their textual form.
    pub contexts: Table<SessionContext, Vec<u8>>,
    /// Encodings of private contact cards.
    pub private_cards: Table<Vec<u8>, NodeInfo>,
    /// Aliases whose first lease operation is in order.
    pub retained: Vec<OwnedAlias>,
    /// Aliases whose expiry is in order after a renewal, or without one.
    pub renewed: Vec<Renewal>,
    /// Encodings of public contact cards.
    pub public_cards: Table<Vec<u8>, NodeInfo>,
    /// Encodings of channel routes.
    pub routes: Table<Vec<u8>, ChannelRoute>,
    /// Routes that are valid.
    pub valid_routes: Vec<ChannelRoute>,
    /// Cells that the transport can carry.
    pub cells: Vec<Cell>,
    /// Encodings of unsealed sessions.
    pub plain_sessions: Vec<Vec<u8>>,
    /// Sealed sessions in good form, each with its tag where it has one.
    pub sealed_sessions: Table<Vec<u8>, Option<[u8; 16]>>,
    /// Channel roles that can be restored.
    pub roles: Table<RoleKey, RoleFacts>,
    /// Prepared joins that can be restored, each with its pseudonym.
    pub joins: Table<Vec<u8>, [u8; 32]>,
    /// The identifiers of channel messages.
    pub message_ids: Table<WireKey, [u8; 16]>,
    /// Channel-direct secrets.
    pub direct_secrets: Table<SecretKey, [u8; 32]>,
    /// Application records that must not be kept.
    pub volatile_records: Vec<Vec<u8>>,
    /// Direct records that may wait for a session.
    pub durable_records: Vec<Vec<u8>>,
    /// Records of the credited sessions.
    pub direct_records: Vec<Vec<u8>>,
    /// The typed keys of completed removals.
    pub removal_keys: Vec<String>,
    /// The typed key of a removal known by name alone.
    pub legacy_removal_keys: Table<String, String>,
    /// Encodings of transport identities.
    pub tls_identities: Vec<Vec<u8>>,
    /// Encodings of routing directories.
    pub directories: Vec<Vec<u8>>,
    /// Encodings of receipt ledgers.
    pub receipts: Vec<Vec<u8>>,
    /// Encodings of forwarding grants.
    pub grants: Table<Vec<u8>, ForwardGrant>,
    /// Application messages that the inbox can take; false for those that it would
    /// hold already.
    pub inbox: Table<InboxEntryFrame, bool>,
    /// Partitions of ownership that are in order.
    pub partitions: Vec<CentralOwnership>,
}

/// The associated data of a context: a prefix, then the context's text.
pub open spec fn aad_of(text: Seq<u8>) -> Seq<u8> {
    encode_utf8("gc1/forward-grant-aad/v1"@) + text
}

/// The associated data that a table of contexts has for one.
pub open spec fn aad_in(contexts: Table<SessionContext, Vec<u8>>, context: ContextView) -> Option<Seq<u8>> {
    match contexts.lookup(context) {
        Some(text) => Some(aad_of(text@)),
        None => None,
    }
}

/// The associated data of a context with that text.
pub fn text_aad(text: &Vec<u8>) -> (r: Vec<u8>)
    ensures
        r@ == aad_of(text@),
{
    let mut out: Vec<u8> = copy_bytes("gc1/forward-grant-aad/v1".as_bytes());
    put_bytes(&mut out, text.as_slice());
    out
}

impl Codec {
    /// Codecs that know of nothing.
    pub fn empty() -> (r: Self)
        ensures
            r.contexts.entries@.len() == 0,
            r.private_cards.entries@.len() == 0,
            r.retained@.len() == 0,
            r.renewed@.len() == 0,
            r.public_cards.entries@.len() == 0,
            r.routes.entries@.len() == 0,
            r.valid_routes@.len() == 0,
            r.cells@.len() == 0,
            r.plain_sessions@.len() == 0,
            r.sealed_sessions.entries@.len() == 0,
            r.roles.entries@.len() == 0,
            r.joins.entries@.len() == 0,
            r.message_ids.entries@.len() == 0,
            r.direct_secrets.entries@.len() == 0,
            r.volatile_records@.len() == 0,
            r.durable_records@.len() == 0,
            r.direct_records@.len() == 0,
            r.removal_keys@.len() == 0,
            r.legacy_removal_keys.entries@.len() == 0,
            r.tls_identities@.len() == 0,
            r.directories@.len() == 0,
            r.receipts@.len() == 0,
            r.grants.entries@.len() == 0,
            r.inbox.entries@.len() == 0,
            r.partitions@.len() == 0,
    {
        Codec {
            contexts: Table::new(),
            private_cards: Table::new(),
            retained: Vec::new(),
            renewed: Vec::new(),
            public_cards: Table::new(),
            routes: Table::new(),
            valid_routes: Vec::new(),
            cells: Vec::new(),
            plain_sessions: Vec::new(),
            sealed_sessions: Table::new(),
            roles: Table::new(),
            joins: Table::new(),
            message_ids: Table::new(),
            direct_secrets: Table::new(),
            volatile_records: Vec::new(),
            durable_records: Vec::new(),
            direct_records: Vec::new(),
            removal_keys: Vec::new(),
            legacy_removal_keys: Table::new(),
            tls_identities: Vec::new(),
            directories: Vec::new(),
            receipts: Vec::new(),
            grants: Table::new(),
            inbox: Table::new(),
            partitions: Vec::new(),
        }
    }

    /// The associated data that binds a sealed value to a context.
    pub open spec fn aad(self, context: ContextView) -> Option<Seq<u8>> {
        aad_in(self.contexts, context)
    }

    pub fn context_aad(&self, context: &SessionContext) -> (r: Result<Vec<u8>, Error>)
        ensures
            match r {
                Ok(aad) => self.aad(context@) == Some(aad@),
                Err(e) => self.aad(context@) is None && e == Error::ContextRefused,
            },
    {
        match self.contexts.get(context) {
            Some(text) => Ok(text_aad(text)),
            None => Err(Error::ContextRefused),
        }
    }

    /// The private card that a byte string encodes.
    pub open spec fn private_card(self, bytes: Seq<u8>) -> Option<NodeInfoView> {
        match self.private_cards.lookup(bytes) {
            Some(card) => Some(card@),
            None => None,
        }
    }

    /// The encoding of a private card.
    pub open spec fn private_encoding(self, card: NodeInfoView) -> Option<Seq<u8>> {
        key_for(self.private_cards.entries@, card)
    }

    pub fn decode_private(&self, bytes: &Vec<u8>) -> (r: Option<NodeInfo>)
        ensures
            match r {
                Some(card) => self.private_card(bytes@) == Some(card@),
                None => self.private_card(bytes@) is None,
            },
    {
        match self.private_cards.get(bytes) {
            Some(card) => Some(card.clone()),
            None => None,
        }
    }

    pub fn encode_private(&self, card: &NodeInfo) -> (r: Option<Vec<u8>>)
        ensures
            match r {
                Some(bytes) => self.private_encoding(card@) == Some(bytes@),
                None => self.private_encoding(card@) is None,
            },
    {
        let ghost all = value_views(self.private_cards.entries@);
        let mut i: usize = 0;
        while i < self.private_cards.entries.len()
            invariant
                i <= self.private_cards.entries.len(),
                all == value_views(self.private_cards.entries@),
                forall|j: int| 0 <= j < i ==> all[j] != card@,
            decreases self.private_cards.entries.len() - i,
        {
            if self.private_cards.entries[i].1.same(card) {
                proof {
                    lemma_place_is(all, card@, i as int);
                    assert(all[i as int] == card@);
                }
                return Some(copy_bytes(self.private_cards.entries[i].0.as_slice()));
            }
            i += 1;
        }
        None
    }

    pub open spec fn retains(self, alias: OwnedAliasView) -> bool {
        exists|i: int| 0 <= i < self.retained@.len() && (#[trigger] self.retained@[i])@ == alias
    }

    /// Whether the alias's first lease operation is in order.
    pub fn is_retained(&self, alias: &OwnedAlias) -> (r: bool)
        ensures
            r == self.retains(alias@),
    {
        let mut i: usize = 0;
        while i < self.retained.len()
            invariant
                i <= self.retained.len(),
                forall|j: int| 0 <= j < i ==> (#[trigger] self.retained@[j])@ != alias@,
            decreases self.retained.len() - i,
        {
            if self.retained[i].same(alias) {
                return true;
            }
            i += 1;
        }
        false
    }

    pub open spec fn renews(self, alias: OwnedAliasView, wire: Option<Seq<u8>>) -> bool {
        exists|i: int| 0 <= i < self.renewed@.len() && (#[trigger] self.renewed@[i]).alias@ == alias && opt_view(self.renewed@[i].wire) == wire
    }

    /// Whether the alias's expiry is in order with that renewal.
    pub fn is_renewed(&self, alias: &OwnedAlias, wire: Option<&Vec<u8>>) -> (r: bool)
        ensures
            r == self.renews(alias@, match wire {
                Some(w) => Some(w@),
                None => None,
            }),
    {
        let ghost wanted: Option<Seq<u8>> = match wire {
            Some(w) => Some(w@),
            None => None,
        };
        let mut i: usize = 0;
        while i < self.renewed.len()
            invariant
                i <= self.renewed.len(),
                wanted == (match wire {
                    Some(w) => Some(w@),
                    None => None,
                }),
                forall|j: int| 0 <= j < i ==> !((#[trigger] self.renewed@[j]).alias@ == alias@ && opt_view(self.renewed@[j].wire) == wanted),
            decreases self.renewed.len() - i,
        {
            let same_wire = match (&self.renewed[i].wire, wire) {
                (Some(a), Some(b)) => same_bytes(a.as_slice(), b.as_slice()),
                (None, None) => true,
                _ => false,
            };
            if same_wire && self.renewed[i].alias.same(alias) {
                return true;
            }
            i += 1;
        }
        false
    }

    /// The public card that a byte string encodes.
    pub open spec fn card(self, bytes: Seq<u8>) -> Option<NodeInfoView> {
        match self.public_cards.lookup(bytes) {
            Some(card) => Some(card@),
            None => None,
        }
    }

    pub fn decode_card(&self, bytes: &Vec<u8>) -> (r: Option<&NodeInfo>)
        ensures
            match r {
                Some(card) => self.card(bytes@) == Some(card@),
                None => self.card(bytes@) is None,
            },
    {
        self.public_cards.get(bytes)
    }

    /// The encoding of a card without its private part.
    pub open spec fn card_wire(self, card: NodeInfoView) -> Option<Seq<u8>> {
        key_for(self.public_cards.entries@, NodeInfoView { provisioning: None, ..card })
    }

    pub fn encode_card(&self, card: &NodeInfo) -> (r: Option<Vec<u8>>)
        ensures
            match r {
                Some(bytes) => self.card_wire(card@) == Some(bytes@),
                None => self.card_wire(card@) is None,
            },
    {
        let mut public = card.clone();
        public.provisioning = None;
        let ghost all = value_views(self.public_cards.entries@);
        let mut i: usize = 0;
        while i < self.public_cards.entries.len()
            invariant
                i <= self.public_cards.entries.len(),
                all == value_views(self.public_cards.entries@),
                public@ == (NodeInfoView { provisioning: None, ..card@ }),
                forall|j: int| 0 <= j < i ==> all[j] != public@,
            decreases self.public_cards.entries.len() - i,
        {
            if self.public_cards.entries[i].1.same(&public) {
                proof {
                    lemma_place_is(all, public@, i as int);
                    assert(all[i as int] == public@);
                }
                return Some(copy_bytes(self.public_cards.entries[i].0.as_slice()));
            }
            i += 1;
        }
        None
    }

    /// The channel route that a byte string encodes.
    pub open spec fn route(self, bytes: Seq<u8>) -> Option<ChannelRoute> {
        self.routes.lookup(bytes)
    }

    pub fn decode_route(&self, bytes: &Vec<u8>) -> (r: Option<ChannelRoute>)
        ensures
            r == self.route(bytes@),
    {
        match self.routes.get(bytes) {
            Some(route) => Some(*route),
            None => None,
        }
    }

    pub open spec fn validates(self, route: ChannelRoute) -> bool {
        self.valid_routes@.contains(route)
    }

    pub fn is_valid_route(&self, route: &ChannelRoute) -> (r: bool)
        ensures
            r == self.validates(*route),
    {
        let mut i: usize = 0;
        while i < self.valid_routes.len()
            invariant
                i <= self.valid_routes.len(),
                forall|j: int| 0 <= j < i ==> self.valid_routes@[j] != *route,
            decreases self.valid_routes.len() - i,
        {
            if self.valid_routes[i].same(route) {
                return true;
            }
            i += 1;
        }
        false
    }

    pub open spec fn carries(self, cell: CellView) -> bool {
        views(self.cells@).contains(cell)
    }

    /// Whether the transport can carry a cell.
    pub fn can_carry(&self, cell: &Cell) -> (r: bool)
        ensures
            r == self.carries(cell@),
    {
        let ghost all = views(self.cells@);
        let mut i: usize = 0;
        while i < self.cells.len()
            invariant
                i <= self.cells.len(),
                all == views(self.cells@),
                forall|j: int| 0 <= j < i ==> all[j] != cell@,
            decreases self.cells.len() - i,
        {
            if self.cells[i].same(cell) {
                assert(all[i as int] == cell@);
                return true;
            }
            i += 1;
        }
        false
    }

    pub open spec fn secret(self, seed: Seq<u8>, pseudonym: Seq<u8>) -> Option<[u8; 32]> {
        self.direct_secrets.lookup((seed, pseudonym))
    }

    /// The secret of a pseudonym's direct channel traffic.
    pub fn channel_direct_secret(&self, seed: &[u8; 32], pseudonym: &[u8; 32]) -> (r: Option<[u8; 32]>)
        ensures
            r == self.secret(seed@, pseudonym@),
    {
        match self.direct_secrets.get(&SecretKey { seed: *seed, pseudonym: *pseudonym }) {
            Some(secret) => Some(*secret),
            None => None,
        }
    }

    pub open spec fn message_id(self, channel: Seq<char>, wire: Seq<u8>) -> Option<[u8; 16]> {
        self.message_ids.lookup((channel, wire))
    }

    /// The identifier of a channel message.
    pub fn msg_id(&self, channel: &String, wire: &Vec<u8>) -> (r: Option<[u8; 16]>)
        ensures
            r == self.message_id(channel@, wire@),
    {
        match self.message_ids.get(&WireKey { channel: channel.clone(), wire: copy_bytes(wire.as_slice()) }) {
            Some(id) => Some(*id),
            None => None,
        }
    }

    pub open spec fn role(self, owner: bool, name: Seq<char>, blob: Seq<u8>) -> Option<RoleFacts> {
        self.roles.lookup((owner, name, blob))
    }

    /// The role that a sealed blob restores to.
    pub fn restore_role(&self, owner: bool, name: &String, blob: &Vec<u8>) -> (r: Option<&RoleFacts>)
        ensures
            match r {
                Some(role) => self.role(owner, name@, blob@) == Some(*role),
                None => self.role(owner, name@, blob@) is None,
            },
    {
        self.roles.get(&RoleKey { owner, name: name.clone(), blob: copy_bytes(blob.as_slice()) })
    }

    pub open spec fn is_volatile(self, record: Seq<u8>) -> bool {
        views(self.volatile_records@).contains(record)
    }

    pub fn is_volatile_application(&self, record: &Vec<u8>) -> (r: bool)
        ensures
            r == self.is_volatile(record@),
    {
        among(&self.volatile_records, record)
    }

    pub open spec fn is_durable(self, record: Seq<u8>) -> bool {
        views(self.durable_records@).contains(record)
    }

    pub fn is_durable_direct_data(&self, record: &Vec<u8>) -> (r: bool)
        ensures
            r == self.is_durable(record@),
    {
        among(&self.durable_records, record)
    }

    pub open spec fn is_direct(self, record: Seq<u8>) -> bool {
        views(self.direct_records@).contains(record)
    }

    pub fn is_direct_record(&self, record: &Vec<u8>) -> (r: bool)
        ensures
            r == self.is_direct(record@),
    {
        among(&self.direct_records, record)
    }

    pub open spec fn partitions_well(self, value: CentralView) -> bool {
        views(self.partitions@).contains(value)
    }

    /// Whether a partition of ownership is in order.
    pub fn is_partition(&self, value: &CentralOwnership) -> (r: bool)
        ensures
            r == self.partitions_well(value@),
    {
        let ghost all = views(self.partitions@);
        let mut i: usize = 0;
        while i < self.partitions.len()
            invariant
                i <= self.partitions.len(),
                all == views(self.partitions@),
                forall|j: int| 0 <= j < i ==> all[j] != value@,
            decreases self.partitions.len() - i,
        {
            if self.partitions[i].same(value) {
                assert(all[i as int] == value@);
                return true;
            }
            i += 1;
        }
        false
    }
}

/// A public card is listed under its encoding: what it is written as is read as the
/// card, without what only its owner knows of it.
pub proof fn cards_read_as_written(codec: Codec, card: NodeInfoView)
    requires
        codec.public_cards.wf(),
        codec.card_wire(card) is Some,
    ensures
        codec.card(codec.card_wire(card)->0) == Some(NodeInfoView { provisioning: None, ..card }),
{
    let s = codec.public_cards.entries@;
    let public = NodeInfoView { provisioning: None, ..card };
    let wire = codec.card_wire(card)->0;
    lemma_place(value_views(s), public);
    let i = place(value_views(s), public);
    assert(value_views(s)[i] == public);
    let keys = codec.public_cards.keys();
    lemma_place(keys, wire);
    assert(keys[i] == wire);
    let j = place(keys, wire);
    if i < j {
        assert(keys[i] != keys[j]);
    } else if j < i {
        assert(keys[j] != keys[i]);
    }
}

} // verus!
