//! The live state of a node, as far as it is kept across a restart.

use vstd::prelude::*;
use crate::archive_frame::{CentralOwnership, InboxFrame};
use crate::bytes::{copy_bytes, same_bytes, same_id, same_id16};
use crate::codec::ForwardGrant;
use crate::model::{Cell, ChannelRoute, NodeInfo, OwnedChannelRoute, RelayProvision};
use crate::owner_state::OwnerState;
use crate::table::{Key, Table};
use crate::time::Instant;

verus! {

/// How much payload is held: so many items, so many bytes.
#[derive(Clone, Copy, Debug, PartialEq, Eq, Structural)]
pub struct PayloadUsage {
    pub items: usize,
    pub bytes: usize,
}

/// A direct session: its sealed state, its tag where it is credited, and the
/// payload that it keeps for repair.
#[derive(Debug)]
pub struct PeerSession {
    pub sealed: Vec<u8>,
    pub tag: Option<[u8; 16]>,
    pub usage: PayloadUsage,
}

/// A sealed session that is to be written in place of the live one. Its usage is
/// known once it has been authenticated.
#[derive(Debug)]
pub struct Snapshot {
    pub bytes: Vec<u8>,
    pub tag: Option<[u8; 16]>,
    pub usage: Option<PayloadUsage>,
}

#[derive(Clone, Copy, Debug, PartialEq, Eq, Structural)]
pub enum DirectSessionState {
    InitiatedUnconfirmed { expires: Instant },
    Established,
}

/// Cells on their way to a peer.
#[derive(Debug)]
pub struct DirectDelivery {
    pub peer: NodeInfo,
    pub relay: RelayProvision,
    pub cells: Vec<Cell>,
}

/// A direct message that waits for its acknowledgement.
#[derive(Debug)]
pub struct PendingDirect {
    pub delivery: DirectDelivery,
    pub logical_record: Option<Vec<u8>>,
    pub sequence: u64,
    pub next_attempt: Instant,
    pub expires: Instant,
    pub application_event: bool,
}

/// A frame that was taken: whose, and under which counter.
#[derive(Debug)]
pub struct ProcessedKey {
    pub peer: Vec<u8>,
    pub counter: u64,
}

impl View for ProcessedKey {
    type V = (Seq<u8>, u64);

    open spec fn view(&self) -> (Seq<u8>, u64) {
        (self.peer@, self.counter)
    }
}

impl Key for ProcessedKey {
    fn same_key(&self, other: &Self) -> (r: bool) {
        self.counter == other.counter && same_bytes(self.peer.as_slice(), other.peer.as_slice())
    }

    fn copy_key(&self) -> (r: Self) {
        ProcessedKey { peer: copy_bytes(self.peer.as_slice()), counter: self.counter }
    }
}

#[derive(Debug)]
pub struct ProcessedDirect {
    pub frame_hash: [u8; 32],
    pub delivery: DirectDelivery,
}

/// A channel message that waits for its acknowledgements.
#[derive(Debug)]
pub struct ChannelMessageOutbox {
    pub wire: Vec<u8>,
    pub expected: Table<[u8; 32], ChannelRoute>,
    pub acknowledged: Vec<[u8; 32]>,
}

/// A membership commit that waits for its acknowledgements.
#[derive(Debug)]
pub struct MembershipOutbox {
    pub commit_id: [u8; 16],
    pub epoch: u64,
    pub commit: Vec<u8>,
    pub expected: Table<[u8; 32], ChannelRoute>,
    pub acknowledged: Vec<[u8; 32]>,
}

#[derive(Debug)]
pub struct CachedAdmission {
    pub name: String,
    pub pseudonym: [u8; 32],
    pub welcome: Vec<u8>,
}

/// An acknowledgement without a route: for which message, to whom.
#[derive(Clone, Copy, Debug)]
pub struct UnroutedAckKey {
    pub original_id: [u8; 16],
    pub sender_pseudonym: [u8; 32],
}

impl View for UnroutedAckKey {
    type V = ([u8; 16], [u8; 32]);

    open spec fn view(&self) -> ([u8; 16], [u8; 32]) {
        (self.original_id, self.sender_pseudonym)
    }
}

impl Key for UnroutedAckKey {
    fn same_key(&self, other: &Self) -> (r: bool) {
        same_id16(&self.original_id, &other.original_id) && same_id(&self.sender_pseudonym, &other.sender_pseudonym)
    }

    fn copy_key(&self) -> (r: Self) {
        *self
    }
}

/// A single-use invite.
#[derive(Clone, Copy, Debug)]
pub struct InviteRecord {
    pub secret: [u8; 32],
    pub expiry: u64,
    /// Who redeemed it.
    pub consumed: Option<[u8; 32]>,
}

/// Control traffic for a member.
#[derive(Debug)]
pub struct ControlWire {
    pub route: ChannelRoute,
    pub wire: Vec<u8>,
}

/// A channel. Its role is kept sealed, in the form that the host restores.
#[derive(Debug)]
pub struct ChannelState {
    pub public: bool,
    pub owner: bool,
    pub blob: Vec<u8>,
    pub own_route: OwnedChannelRoute,
    pub previous_own_route: Option<OwnedChannelRoute>,
    pub directory: Table<String, ChannelRoute>,
    pub message_outbox: Table<[u8; 16], ChannelMessageOutbox>,
    pub membership_outbox: Option<MembershipOutbox>,
    pub pending_control: Vec<ControlWire>,
    pub admission_cache: Table<[u8; 32], CachedAdmission>,
    pub admission_cache_order: Vec<[u8; 32]>,
    pub completed_removals: Vec<String>,
    pub commit_ack_cache: Table<[u8; 16], ControlWire>,
    pub commit_ack_order: Vec<[u8; 16]>,
    pub unrouted_ack_journal: Table<UnroutedAckKey, Vec<u8>>,
    pub unrouted_ack_order: Vec<UnroutedAckKey>,
    pub invites: Table<[u8; 16], InviteRecord>,
    pub invite_order: Vec<[u8; 16]>,
}

/// A join that was prepared and not yet answered. Its group state is kept sealed.
#[derive(Debug)]
pub struct PreparedChannelJoin {
    pub mls: Vec<u8>,
    pub route: OwnedChannelRoute,
    pub display: String,
}

/// Messages for the applications of this node, and who owns them.
#[derive(Debug)]
pub struct ApplicationInbox {
    pub messages: InboxFrame,
    pub central_ownership: Option<CentralOwnership>,
    pub machine_owned: bool,
    /// Whether a local routing policy is in force.
    pub local_routing_policy: bool,
}

/// How a peer was last heard of.
#[derive(Clone, Copy, Debug, PartialEq, Eq, Structural)]
pub enum Reachability {
    RecentlyReachable,
    Away,
    Unknown,
}

#[derive(Clone, Copy, Debug, PartialEq, Eq, Structural)]
pub enum PresenceMode {
    RecentlyReachable,
    Away,
    Invisible,
}

/// What is known of a peer, and until when.
#[derive(Clone, Copy, Debug, PartialEq, Eq, Structural)]
pub struct PresenceObservation {
    pub reachability: Reachability,
    pub expires: Instant,
}

/// A member of a channel.
#[derive(Debug)]
pub struct MemberKey {
    pub channel: String,
    pub member_id: [u8; 32],
}

impl View for MemberKey {
    type V = (Seq<char>, [u8; 32]);

    open spec fn view(&self) -> (Seq<char>, [u8; 32]) {
        (self.channel@, self.member_id)
    }
}

impl Key for MemberKey {
    fn same_key(&self, other: &Self) -> (r: bool) {
        self.channel == other.channel && same_id(&self.member_id, &other.member_id)
    }

    fn copy_key(&self) -> (r: Self) {
        MemberKey { channel: self.channel.clone(), member_id: self.member_id }
    }
}

/// What the node knows of the presence of others, and whom it lets know of its own.
#[derive(Debug)]
pub struct Presence {
    pub direct: Table<Vec<u8>, PresenceObservation>,
    pub direct_counters: Table<Vec<u8>, u64>,
    pub direct_opt_in: Vec<Vec<u8>>,
    pub channel: Table<MemberKey, PresenceObservation>,
    pub channel_counters: Table<MemberKey, u64>,
    pub channel_opt_in: Vec<String>,
}

/// The state of a node.
#[derive(Debug)]
pub struct NodeState {
    pub owner: OwnerState,
    /// Whether the outcome of the last owner transition is unknown.
    pub owner_transition_failed: bool,
    /// Whether the node was started for credited sessions.
    pub gc2_sessions: bool,
    /// The encoding of the receipt ledger.
    pub gc2_receipts: Vec<u8>,
    /// The encoding of the routing directory, where a routing runtime is in use.
    pub routing: Option<Vec<u8>>,
    pub sealed_tls_identity: Vec<u8>,
    pub sessions: Table<Vec<u8>, PeerSession>,
    pub session_states: Table<Vec<u8>, DirectSessionState>,
    pub peer_routes: Table<Vec<u8>, NodeInfo>,
    pub peer_route_generations: Table<Vec<u8>, u64>,
    pub local_contact_generation: u64,
    pub pending_1to1: Table<[u8; 16], PendingDirect>,
    pub next_direct_sequence: u64,
    pub direct_ack_outbox: Vec<DirectDelivery>,
    pub processed_direct: Table<ProcessedKey, ProcessedDirect>,
    pub processed_direct_order: Vec<ProcessedKey>,
    pub channels: Table<String, ChannelState>,
    pub presence: Presence,
    pub forward_grants: Vec<ForwardGrant>,
    pub application_inbox: ApplicationInbox,
    pub prepared: Table<u64, PreparedChannelJoin>,
    pub next_prep_id: u64,
}

} // verus!
