use gcoms_node::archive::{decode_v2, version_of, Archive};
use gcoms_node::archive_frame::{CentralOwnership, InboxEntryFrame, InboxFrame, ShortIdFrame};
use gcoms_node::archive_strings::{archive_strings, own_contexts, role_contexts};
use gcoms_node::archive_write::{encode_state, encode_state_with_session};
use gcoms_node::channel_route::{open_unified_route, seal_prepared_route, seal_unified_route};
use gcoms_node::codec::{Codec, ForwardGrant, NodeKeys, Protocol, Renewal, RoleFacts, RoleKey, SecretKey, WireKey};
use gcoms_node::error::Error;
use gcoms_node::model::{
    AliasContact, Capabilities, Cell, ChannelRoute, LeaseLimits, NodeInfo, OwnedAlias, OwnedChannelRoute, RelayProvision, RelayTarget,
    SocketAddr,
};
use gcoms_node::node_state::{
    CachedAdmission, ChannelMessageOutbox, ChannelState, ControlWire, DirectDelivery, DirectSessionState, InviteRecord, MembershipOutbox,
    NodeState, PayloadUsage, PeerSession, PendingDirect, PreparedChannelJoin, ProcessedDirect, ProcessedKey, Snapshot, UnroutedAckKey,
};
use gcoms_node::profile::AliasLifecycleConfig;
use gcoms_node::received::{encode_received, revert_established};
use gcoms_node::reopen::reopen;
use gcoms_node::restore::{
    may_restore_live, resend, restore_owner_aliases, restore_routing_directory, restore_tls_identity, OpenedSession, Readings,
};
use gcoms_node::restore_state::{install, Host as RestoreHost};
use gcoms_node::revive_channel::sightings;
use gcoms_node::route_work::{plan_join, plan_route, settle_readmitted, JoinWork, RoutePlace, RouteWork};
use gcoms_node::seal::{channel_seed_from, SessionContext};
use gcoms_node::sealed_parts::{
    application_inbox_context, central_ownership_context, forward_grant_context, gc2_receipts_context, machine_ownership_context,
    routing_context, seal_central_ownership, seal_machine_ownership, seal_tls_identity, tls_identity_context,
};
use gcoms_node::startup::fresh_state;
use gcoms_node::strings::ArchiveString;
use gcoms_node::table::Table;
use gcoms_node::time::{Duration, Instant};

const WALL_MS: u64 = 1_700_000_000_000;
const UNIX: u64 = 1_700_000_000;
const NOW: Instant = Instant { nanos: 5_000_000_000_000 };
const SEED: u8 = 0xA5;
const MAX_SESSIONS: usize = 8192;

fn keys(byte: u8) -> NodeKeys {
    NodeKeys {
        seed: [byte; 32],
        identity_public: vec![byte.wrapping_add(1); 32],
        archive_key: [byte.wrapping_add(2); 32],
        wrapping_key: [byte.wrapping_add(3); 32],
    }
}

fn protocol() -> Protocol {
    Protocol {
        relay_sub: 5,
        frwd: 6,
        op_relay_challenge: 1,
        op_relay_admission: 2,
        op_grant_request: 3,
        op_create: 4,
        op_renew: 5,
        op_rotate: 6,
        op_revoke: 7,
        lease_create_len: 220,
        lease_renew_len: 66,
        channel_max: 64,
        channel_ack_limit: 256,
        forward_grants_max: 64,
        application_inbox_limit: 1024,
        receipts_max: 4096,
    }
}

fn contact(byte: u8) -> AliasContact {
    AliasContact {
        target: RelayTarget { address: SocketAddr::v4([192, 0, 2, byte], 443), relay_service_id: [byte; 32] },
        queue_id: [byte.wrapping_add(1); 32],
        epoch: u64::from(byte) + 1,
        push_cap: [byte.wrapping_add(2); 32],
        expiry: UNIX + 3600,
    }
}

fn route(byte: u8, pseudonym: [u8; 32]) -> ChannelRoute {
    ChannelRoute {
        pseudonym,
        direct_public: [byte.wrapping_add(40); 32],
        data: contact(byte),
        control: contact(byte.wrapping_add(20)),
    }
}

fn valid_alias(contact: AliasContact, byte: u8) -> OwnedAlias {
    OwnedAlias {
        contact,
        capabilities: Capabilities { push: contact.push_cap, sub: [byte.wrapping_add(4); 32], admin: [byte.wrapping_add(5); 32] },
        limits: LeaseLimits { max_queue_cells: 32, max_queue_bytes: 65_536 },
        create_path: format!("create-{byte}"),
        lease_create: Cell { version: 1, raw_type: 5, flags: 0, round_ctr: 0, payload: vec![byte.wrapping_add(9); 220] },
    }
}

fn owner_relay() -> RelayProvision {
    let first = contact(50);
    let mut second = contact(60);
    second.target = first.target;
    RelayProvision { aliases: vec![valid_alias(first, 50), valid_alias(second, 60)], frwd_path: "forward-50".into(), hop_key: [56; 32] }
}

fn peer(byte: u8) -> NodeInfo {
    NodeInfo {
        identity_pk: vec![byte; 32],
        bundle: vec![byte.wrapping_add(1); 64],
        aliases: vec![contact(byte), contact(byte.wrapping_add(20))],
        provisioning: None,
    }
}

fn cell(byte: u8) -> Cell {
    Cell { version: 1, raw_type: 3, flags: 0, round_ctr: 0, payload: vec![byte; 8] }
}

fn delivery(byte: u8) -> DirectDelivery {
    DirectDelivery { peer: peer(byte), relay: owner_relay(), cells: vec![cell(byte)] }
}

fn state() -> NodeState {
    fresh_state(owner_relay(), AliasLifecycleConfig::default(), None, vec![], false, vec![], WALL_MS, NOW).unwrap()
}

fn owned_route(byte: u8, pseudonym: [u8; 32], direct_secret: [u8; 32]) -> OwnedChannelRoute {
    let mut public = route(byte, pseudonym);
    public.direct_public = x25519_dalek::PublicKey::from(&x25519_dalek::StaticSecret::from(direct_secret)).to_bytes();
    let aliases = vec![valid_alias(public.data, byte), valid_alias(public.control, byte.wrapping_add(20))];
    OwnedChannelRoute { public, direct_secret, aliases }
}

fn channel(owner: bool, blob: Vec<u8>, own_route: OwnedChannelRoute) -> ChannelState {
    ChannelState {
        public: false,
        owner,
        blob,
        own_route,
        previous_own_route: None,
        directory: Table::new(),
        message_outbox: Table::new(),
        membership_outbox: None,
        pending_control: vec![],
        admission_cache: Table::new(),
        admission_cache_order: vec![],
        completed_removals: vec![],
        commit_ack_cache: Table::new(),
        commit_ack_order: vec![],
        unrouted_ack_journal: Table::new(),
        unrouted_ack_order: vec![],
        invites: Table::new(),
        invite_order: vec![],
    }
}

/// The host's side: what its codecs say of what a node holds.
struct Host {
    keys: NodeKeys,
    codec: Codec,
}

impl Host {
    fn new(byte: u8) -> Self {
        let keys = keys(byte);
        let mut codec = Codec::empty();
        let owner = SessionContext::of_identity(&keys.identity_public, b"owner-aliases", b"lifecycle", b"gc1/owner-aliases/v1");
        for (text, context) in [
            ("owner", owner),
            ("inbox", application_inbox_context(&keys)),
            ("machine", machine_ownership_context(&keys)),
            ("central", central_ownership_context(&keys)),
            ("tls", tls_identity_context(&keys)),
            ("routing", routing_context(&keys)),
            ("receipts", gc2_receipts_context(&keys)),
            ("grants", forward_grant_context(&keys)),
        ] {
            codec.contexts.insert(context, text.as_bytes().to_vec());
        }
        let mut host = Host { keys, codec };
        let relay = owner_relay();
        for alias in &relay.aliases {
            host.lease(alias);
        }
        let card = NodeInfo {
            identity_pk: host.keys.identity_public.clone(),
            bundle: vec![],
            aliases: relay.aliases.iter().map(|a| a.contact).collect(),
            provisioning: Some(relay),
        };
        host.codec.private_cards.insert(b"private".to_vec(), card);
        host
    }

    fn lease(&mut self, alias: &OwnedAlias) {
        self.codec.retained.push(alias.clone());
        self.codec.renewed.push(Renewal { alias: alias.clone(), wire: None });
        self.codec.cells.push(alias.lease_create.clone());
    }

    fn card(&mut self, card: &NodeInfo) {
        let n = self.codec.public_cards.entries.len() as u8;
        self.codec.public_cards.insert(vec![0xcd, n], card.clone());
    }

    fn route(&mut self, route: &ChannelRoute) {
        let n = self.codec.routes.entries.len() as u8;
        self.codec.routes.insert(vec![0xe0, n], *route);
        self.codec.valid_routes.push(*route);
    }

    fn owned_route(&mut self, route: &OwnedChannelRoute) {
        self.route(&route.public);
        for alias in &route.aliases {
            self.lease(alias);
        }
    }

    fn delivery(&mut self, delivery: &DirectDelivery) {
        self.card(&delivery.peer);
        for cell in &delivery.cells {
            self.codec.cells.push(cell.clone());
        }
    }

    /// A role, its secret, and the contexts of its routes.
    fn role(&mut self, owner: bool, name: &str, blob: &[u8], facts: RoleFacts, direct_secret: [u8; 32]) {
        let seed = if owner { channel_seed_from(&self.keys.seed, name) } else { self.keys.seed };
        self.codec.direct_secrets.insert(SecretKey { seed, pseudonym: facts.pseudonym }, direct_secret);
        for label in [&b"gc1/established-channel-route/v1"[..], &b"gc1/previous-channel-route/v1"[..]] {
            let context = SessionContext::of_identity(&self.keys.identity_public, label, &facts.pseudonym, &facts.channel_id);
            self.codec.contexts.insert(context, [label, &facts.channel_id].concat());
        }
        self.codec.roles.insert(RoleKey { owner, name: name.into(), blob: blob.to_vec() }, facts);
    }

    fn message(&mut self, channel: &str, wire: &[u8], id: [u8; 16]) {
        self.codec.message_ids.insert(WireKey { channel: channel.into(), wire: wire.to_vec() }, id);
    }

    fn encode(&self, st: &mut NodeState) -> Result<Vec<u8>, Error> {
        encode_state(st, &self.keys, &self.codec, &protocol(), WALL_MS, NOW)
    }

    fn decode(&self, bytes: &[u8]) -> Result<Archive, Error> {
        decode_v2(bytes, &self.keys, &self.codec, &protocol())
    }
}

fn facts(pseudonym: [u8; 32], channel_id: &[u8], members: &[(&str, [u8; 32])]) -> RoleFacts {
    let mut names: Table<String, [u8; 32]> = Table::new();
    for (name, id) in members {
        names.insert((*name).into(), *id);
    }
    RoleFacts { pseudonym, channel_id: channel_id.to_vec(), names, roster: members.iter().map(|(name, _)| (*name).to_owned()).collect() }
}

fn magic(last: u8) -> [u8; 6] {
    [0x47, 0x43, 0x4e, 0x53, 0x54, last]
}

fn field(bytes: &[u8], at: &mut usize) -> Option<Vec<u8>> {
    let len = u32::from_be_bytes(bytes.get(*at..*at + 4)?.try_into().ok()?) as usize;
    let out = bytes.get(*at + 4..(*at + 4).checked_add(len)?)?.to_vec();
    *at += 4 + len;
    Some(out)
}

fn put(out: &mut Vec<u8>, value: &[u8]) {
    out.extend((value.len() as u32).to_be_bytes());
    out.extend(value);
}

/// The trailer of a current archive: where it starts, the machine's scope, the
/// owner's record, the routing directory, and the rest.
fn trailer(bytes: &[u8]) -> (usize, Vec<u8>, Vec<u8>, Vec<u8>, Vec<u8>) {
    for start in 6..bytes.len() {
        let mut at = start;
        let Some(machine) = field(bytes, &mut at) else { continue };
        if machine.len() != 29 {
            continue;
        }
        let Some(owner) = field(bytes, &mut at) else { continue };
        let Some(directory) = field(bytes, &mut at) else { continue };
        if owner.len() < 100 || !(directory.is_empty() || directory.len() > 28) {
            continue;
        }
        return (start, machine, owner, directory, bytes[at..].to_vec());
    }
    panic!("no trailer");
}

fn machine16(bytes: &[u8]) -> Vec<u8> {
    let (start, machine, owner, _, _) = trailer(bytes);
    let mut out = bytes[..start].to_vec();
    put(&mut out, &machine);
    put(&mut out, &owner);
    out[..6].copy_from_slice(&magic(0x47));
    out
}

#[test]
fn persistent_tls_identity_is_sealed_bound_and_backward_compatible() {
    let mut host = Host::new(SEED);
    let identity = vec![0x77; 90];
    host.codec.tls_identities.push(identity.clone());
    let mut node = state();
    node.sealed_tls_identity = seal_tls_identity(&identity, &host.keys, &host.codec).unwrap();
    let encoded = host.encode(&mut node).unwrap();
    assert!(!encoded.windows(identity.len()).any(|bytes| bytes == identity));
    let restored = restore_tls_identity(&encoded, &host.keys, &host.codec, &protocol()).unwrap().unwrap();
    assert_eq!(restored, identity);
    let other = Host::new(0x42);
    assert!(restore_tls_identity(&encoded, &other.keys, &other.codec, &protocol()).is_err());
    let mut damaged = encoded.clone();
    *damaged.last_mut().unwrap() ^= 1;
    assert!(restore_tls_identity(&damaged, &host.keys, &host.codec, &protocol()).is_err());
    let (start, _, _, _, _) = trailer(&encoded);
    let ownership = seal_central_ownership(&None, &host.keys, &host.codec).unwrap();
    let mut legacy = encoded[..start - 4 - ownership.len() - 4 - node.sealed_tls_identity.len()].to_vec();
    legacy[..6].copy_from_slice(&magic(0x43));
    assert!(restore_tls_identity(&legacy, &host.keys, &host.codec, &protocol()).unwrap().is_none());
    assert_eq!(restore_tls_identity(&magic(0x31), &host.keys, &host.codec, &protocol()), Ok(None));
}

#[test]
fn application_inbox_archive_preserves_cursor_and_seals_pending_bytes() {
    let mut host = Host::new(SEED);
    let mut node = state();
    let body = b"private application payload retained until local commit";
    let entry = || InboxEntryFrame { sequence: 2, peer: vec![1; 1952], message_id: [2; 16], received_at_unix: 101, body: body.to_vec() };
    host.codec.inbox.insert(entry(), true);
    node.application_inbox.messages = InboxFrame { next_sequence: 3, entries: vec![entry()] };
    let mut encoded = host.encode(&mut node).unwrap();
    assert_eq!(encoded[..6], magic(0x4a));
    assert!(!encoded.windows(body.len()).any(|window| window == body));
    let decoded = host.decode(&encoded).unwrap();
    assert_eq!(decoded.application_inbox.next_sequence, 3);
    let entries = &decoded.application_inbox.entries;
    assert_eq!(entries.len(), 1);
    assert_eq!(entries[0].sequence, 2);
    assert_eq!(entries[0].body, body);
    assert!(Host::new(0x22).decode(&encoded).is_err());
    let last = encoded.len() - 1;
    encoded[last] ^= 1;
    assert!(host.decode(&encoded).is_err());
}

#[test]
fn v2_rejects_truncated_and_trailing_archives() {
    let host = Host::new(SEED);
    let mut minimal = magic(0x32).to_vec();
    minimal.extend_from_slice(&1u64.to_be_bytes());
    for _ in 0..6 {
        minimal.extend_from_slice(&0u32.to_be_bytes());
    }
    assert!(host.decode(&minimal).is_ok());
    let mut legacy_v4 = minimal.clone();
    legacy_v4[..6].copy_from_slice(&magic(0x34));
    assert!(host.decode(&legacy_v4).is_ok());
    for end in 0..minimal.len() {
        assert!(host.decode(&minimal[..end]).is_err(), "accepted cut {end}");
    }
    minimal.push(0);
    assert!(host.decode(&minimal).is_err());
}

#[test]
fn v2_rejects_oversized_counts_before_allocating() {
    let host = Host::new(SEED);
    let mut malformed = magic(0x32).to_vec();
    malformed.extend_from_slice(&1u64.to_be_bytes());
    malformed.extend_from_slice(&(MAX_SESSIONS as u32 + 1).to_be_bytes());
    assert!(host.decode(&malformed).is_err());
}

#[test]
fn owner_archive_v14_migration_and_v15_missing_record_refuse() {
    let host = Host::new(SEED);
    let mut node = state();
    let encoded = host.encode(&mut node).unwrap();
    let mut old = machine16(&encoded);
    let (_, _, owner, _, _) = trailer(&encoded);
    old.truncate(old.len() - 4 - owner.len());
    assert!(host.decode(&old).is_err(), "v15 requires its owner record");
    old.truncate(old.len() - 4 - seal_machine_ownership(false, &host.keys, &host.codec).unwrap().len());
    old[..6].copy_from_slice(&magic(0x45));
    let legacy = host.decode(&old).unwrap();
    assert!(legacy.owner_aliases.is_none());
    assert!(host.decode(&encoded).unwrap().owner_aliases.is_some());
}

#[test]
fn machine_scope_ownership_is_sealed_and_old_v15_is_unowned() {
    let host = Host::new(SEED);
    let mut node = state();
    node.application_inbox.machine_owned = true;
    let bytes = host.encode(&mut node).unwrap();
    assert!(host.decode(&bytes).unwrap().machine_owned);
    assert!(Host::new(0x91).decode(&bytes).is_err());
    let (start, machine, _, _, _) = trailer(&bytes);
    let mut old = machine16(&bytes);
    old.drain(start..start + 4 + machine.len());
    old[..6].copy_from_slice(&magic(0x46));
    assert!(!host.decode(&old).unwrap().machine_owned);
    let mut corrupt = bytes;
    corrupt[start + 4] ^= 1;
    assert!(host.decode(&corrupt).is_err());
}

#[test]
fn central_ownership_comes_back_and_excludes_the_machine() {
    let mut host = Host::new(SEED);
    let central = || CentralOwnership {
        primary: vec![ShortIdFrame { id: [1; 16] }],
        scoped: vec![ShortIdFrame { id: [2; 16] }],
        policy_hash: [9; 32],
    };
    let mut node = state();
    node.application_inbox.central_ownership = Some(central());
    assert_eq!(host.encode(&mut node), Err(Error::OwnershipRefused));
    host.codec.partitions.push(central());
    let bytes = host.encode(&mut node).unwrap();
    let back = host.decode(&bytes).unwrap().central_ownership.unwrap();
    assert_eq!(back.policy_hash, [9; 32]);
    assert_eq!(back.primary[0].id, [1; 16]);
    node.application_inbox.machine_owned = true;
    assert!(host.encode(&mut node).and_then(|bytes| host.decode(&bytes)).is_err());
}

const OWN: [u8; 32] = [0x31; 32];
const DIRECT_SECRET: [u8; 32] = [0x32; 32];

/// A node in one channel that it owns, and the host that knows of it.
fn compatibility() -> (NodeState, Host) {
    let mut host = Host::new(SEED);
    let own = owned_route(61, OWN, DIRECT_SECRET);
    let previous = owned_route(85, OWN, DIRECT_SECRET);
    host.owned_route(&own);
    host.owned_route(&previous);
    host.role(true, "archive-compat", b"role", facts(OWN, b"channel", &[("owner", OWN)]), DIRECT_SECRET);
    let mut node = state();
    let public = own.public;
    let mut c = channel(true, b"role".to_vec(), own);
    c.previous_own_route = Some(previous);
    c.directory.insert("owner".into(), public);
    node.channels.insert("archive-compat".into(), c);
    node.next_direct_sequence = 77;
    node.local_contact_generation = 19;
    node.application_inbox.messages.next_sequence = 23;
    (node, host)
}

/// The archive of a node in the form of version seventeen, which keeps the routes of
/// a channel behind its role.
fn owned17(current: &[u8], host: &Host) -> Vec<u8> {
    let (start, scope, owner, _, _) = trailer(current);
    let mut old = current[..start].to_vec();
    put(&mut old, &scope);
    put(&mut old, &owner);
    let blob = b"\0\0\0\x04role";
    let at = old.windows(blob.len()).position(|w| w == blob).unwrap() + blob.len();
    let role = facts(OWN, b"channel", &[("owner", OWN)]);
    let seal = |route: &OwnedChannelRoute, before: bool| {
        seal_unified_route(route, "archive-compat", &role, before, &host.keys, &host.codec, &protocol()).unwrap()
    };
    let mut routes = vec![];
    put(&mut routes, &seal(&owned_route(61, OWN, DIRECT_SECRET), false));
    routes.push(1);
    put(&mut routes, &seal(&owned_route(85, OWN, DIRECT_SECRET), true));
    old.splice(at..at, routes);
    old[..6].copy_from_slice(&magic(0x48));
    old
}

#[test]
fn archive_compat_authenticated_discrimination_rejects_tamper_truncation_and_splicing() {
    let (mut node, mut host) = compatibility();
    node.application_inbox.machine_owned = true;
    let machine = host.encode(&mut node).unwrap();
    let retained = machine16(&machine);
    let owned = owned17(&machine, &host);
    node.application_inbox.machine_owned = false;
    node.routing = Some(b"directory".to_vec());
    node.owner.routed = true;
    host.codec.directories.push(b"directory".to_vec());
    let unified = host.encode(&mut node).unwrap();
    let (start, _, _, directory, _) = trailer(&unified);
    let mut routed = unified[..start].to_vec();
    put(&mut routed, &[]);
    put(&mut routed, &directory);
    put(&mut routed, &[]);
    routed[..6].copy_from_slice(&magic(0x47));
    let routes = owned.len() - retained.len();
    for (bytes, start) in [(&retained, start), (&routed, start), (&owned, start + routes), (&unified, start)] {
        assert!(Host::new(0x42).decode(bytes).is_err());
        assert!(host.decode(bytes).is_ok());
        for end in [start, start + 1, bytes.len() - 1] {
            assert!(host.decode(&bytes[..end]).is_err());
        }
        let mut extra = bytes.to_vec();
        extra.push(0);
        assert!(host.decode(&extra).is_err());
        let mut corrupt = bytes.to_vec();
        let mut position = start;
        let first = field(bytes, &mut position).unwrap();
        if first.is_empty() {
            field(bytes, &mut position).unwrap();
        }
        corrupt[position - 1] ^= 1;
        assert!(host.decode(&corrupt).is_err());
        let mut oversized = bytes.to_vec();
        oversized[start..start + 4].copy_from_slice(&u32::MAX.to_be_bytes());
        assert!(host.decode(&oversized).is_err());
    }
    let mut hybrid = retained[..start].to_vec();
    let mut end = start;
    field(&retained, &mut end).unwrap();
    hybrid.extend_from_slice(&retained[start..end]);
    hybrid.extend_from_slice(&routed[start..]);
    assert!(host.decode(&hybrid).is_err());
    let mut relabeled = unified;
    relabeled[..6].copy_from_slice(&magic(0x47));
    assert_eq!(host.decode(&relabeled).err(), Some(Error::AmbiguousTrailer));
}

#[test]
fn archive_compat_v18_preserves_pending_and_previous_only_routes() {
    let (mut node, host) = compatibility();
    let previous = node.channels.entries[0].1.previous_own_route.as_ref().unwrap().aliases.clone();
    node.channels.entries[0].1.own_route.aliases.clear();
    let encoded = host.encode(&mut node).unwrap();
    let archive = host.decode(&encoded).unwrap();
    assert_eq!(archive.routes.len(), 1);
    assert!(archive.routes[0].current.is_none());
    assert_eq!(archive.routes[0].previous.as_ref().unwrap().aliases, previous);
}

#[test]
fn archive_compat_old15_has_no_machine_scope_or_owned_channel_grants() {
    let (mut node, host) = compatibility();
    let encoded = host.encode(&mut node).unwrap();
    let (start, machine, _, _, _) = trailer(&encoded);
    let mut bytes = machine16(&encoded);
    bytes.drain(start..start + 4 + machine.len());
    bytes[..6].copy_from_slice(&magic(0x46));
    let archive = host.decode(&bytes).unwrap();
    assert!(!archive.machine_owned);
    assert!(archive.routes.is_empty());
    assert!(archive.owner_aliases.is_some());
}

#[test]
fn archive_compat_owned_grants_bind_node_channel_role_and_independent_capabilities() {
    let (mut node, mut host) = compatibility();
    let own = owned_route(61, OWN, DIRECT_SECRET);
    let role = facts(OWN, b"channel", &[("owner", OWN)]);
    let sealed = seal_unified_route(&own, "archive-compat", &role, false, &host.keys, &host.codec, &protocol()).unwrap();
    let opened = open_unified_route(&sealed, "archive-compat", &role, false, &host.keys, &host.codec, &protocol()).unwrap();
    assert_eq!(opened.aliases, own.aliases);
    let other = keys(0x42);
    assert!(open_unified_route(&sealed, "archive-compat", &role, false, &other, &host.codec, &protocol()).is_err());
    let another = facts([0x41; 32], b"another", &[("owner", [0x41; 32])]);
    host.role(true, "another-channel", b"another role", facts([0x41; 32], b"another", &[]), [0x42; 32]);
    assert!(open_unified_route(&sealed, "another-channel", &another, false, &host.keys, &host.codec, &protocol()).is_err());
    assert!(open_unified_route(&sealed, "archive-compat", &role, true, &host.keys, &host.codec, &protocol()).is_err());
    let aliases = node.channels.entries[0].1.own_route.aliases.clone();
    node.channels.entries[0].1.own_route.aliases[0].capabilities.sub = aliases[0].capabilities.push;
    assert_eq!(host.encode(&mut node), Err(Error::InvalidEstablishedAlias));
    node.channels.entries[0].1.own_route.aliases = aliases;
    let bytes = host.encode(&mut node).unwrap();
    assert_eq!(host.decode(&bytes).unwrap().routes[0].name, "archive-compat");
}

#[test]
fn v2_roundtrips_outstanding_journals_exactly() {
    let mut host = Host::new(SEED);
    let mut st = state();
    let message_id = [0x11; 16];
    let pending = || delivery(8);
    for byte in [8, 9, 10] {
        host.delivery(&delivery(byte));
    }
    st.peer_routes.insert(pending().peer.identity_pk.clone(), pending().peer);
    st.pending_1to1.insert(
        message_id,
        PendingDirect {
            delivery: pending(),
            logical_record: Some(b"logical direct record".to_vec()),
            sequence: 7,
            next_attempt: NOW.checked_add(Duration::from_millis(2_500)).unwrap(),
            expires: NOW.checked_add(Duration::from_millis(50_000)).unwrap(),
            application_event: true,
        },
    );
    st.next_direct_sequence = 8;
    st.direct_ack_outbox.push(delivery(9));
    let processed_key = || ProcessedKey { peer: vec![8; 32], counter: 17 };
    st.processed_direct_order.push(processed_key());
    st.processed_direct.insert(processed_key(), ProcessedDirect { frame_hash: [0x22; 32], delivery: delivery(10) });

    let recipient = route(3, [0x44; 32]);
    let second_recipient = route(4, [0x45; 32]);
    let own = owned_route(2, OWN, DIRECT_SECRET);
    host.owned_route(&own);
    host.route(&recipient);
    host.route(&second_recipient);
    host.role(true, "journal", b"role", facts(OWN, b"channel", &[("owner", OWN), ("recipient", recipient.pseudonym)]), DIRECT_SECRET);
    let own_public = own.public;
    let mut c = channel(true, b"role".to_vec(), own);
    c.directory.insert("owner".into(), own_public);
    let expected = || {
        let mut t: Table<[u8; 32], ChannelRoute> = Table::new();
        t.insert(recipient.pseudonym, recipient);
        t.insert(second_recipient.pseudonym, second_recipient);
        t
    };
    let acknowledged = vec![recipient.pseudonym];
    let channel_wire = b"exact channel ciphertext".to_vec();
    host.message("journal", &channel_wire, [0x51; 16]);
    c.message_outbox.insert(
        [0x51; 16],
        ChannelMessageOutbox { wire: channel_wire.clone(), expected: expected(), acknowledged: acknowledged.clone() },
    );
    let commit = b"exact membership commit".to_vec();
    host.message("journal", &commit, [0x52; 16]);
    c.membership_outbox = Some(MembershipOutbox {
        commit_id: [0x52; 16],
        epoch: 7,
        commit: commit.clone(),
        expected: expected(),
        acknowledged: acknowledged.clone(),
    });
    c.pending_control.push(ControlWire { route: recipient, wire: b"pending ACK wire".to_vec() });
    c.admission_cache_order.push([0x55; 32]);
    c.admission_cache.insert(
        [0x55; 32],
        CachedAdmission { name: "invitee".into(), pseudonym: recipient.pseudonym, welcome: b"cached Welcome".to_vec() },
    );
    c.invite_order.push([0x71; 16]);
    c.invites.insert([0x71; 16], InviteRecord { secret: [0x72; 32], expiry: 1_900_000_000, consumed: None });
    c.invite_order.push([0x73; 16]);
    c.invites.insert([0x73; 16], InviteRecord { secret: [0x74; 32], expiry: 1_900_000_100, consumed: Some(recipient.pseudonym) });
    for key in ["name:removed", "member:44"] {
        host.codec.removal_keys.push(key.into());
        c.completed_removals.push(key.into());
    }
    c.commit_ack_order.push([0x66; 16]);
    c.commit_ack_cache.insert([0x66; 16], ControlWire { route: recipient, wire: b"replay ACK wire".to_vec() });
    let unrouted_key = UnroutedAckKey { original_id: [0x67; 16], sender_pseudonym: recipient.pseudonym };
    c.unrouted_ack_order.push(unrouted_key);
    c.unrouted_ack_journal.insert(unrouted_key, b"unrouted exact ACK wire".to_vec());
    c.public = true;
    st.channels.insert("journal".into(), c);
    st.local_contact_generation = 23;
    st.peer_route_generations.insert(pending().peer.identity_pk, 11);
    st.presence.direct_opt_in.push(pending().peer.identity_pk);
    st.presence.channel_opt_in.push("journal".into());

    let encoded = host.encode(&mut st).unwrap();
    assert_eq!(encoded[..6], magic(0x4a));
    let archive = host.decode(&encoded).unwrap();
    assert_eq!(host.codec.decode_card(&archive.core.peer_routes[0].card), Some(&pending().peer));
    assert_eq!(archive.core.peer_routes[0].generation, 11);
    assert_eq!(archive.core.head.local_contact_generation, 23);
    assert_eq!(archive.policy.peers[0].peer, pending().peer.identity_pk);
    assert_eq!(archive.policy.channels[0].name, "journal");
    let waiting = &archive.core.pending[0];
    assert_eq!(waiting.message_id, message_id);
    assert_eq!(waiting.delivery.cells, pending().cells);
    assert!(waiting.delivery.relay.is_empty());
    assert_eq!(waiting.logical.as_deref(), Some(&b"logical direct record"[..]));
    assert_eq!(waiting.sequence, 7);
    assert_eq!(waiting.retry_ms, 2_500);
    assert_eq!(waiting.expiry_ms, 50_000);
    assert!(waiting.application_event);
    assert_eq!(archive.core.acks.len(), 1);
    assert_eq!(archive.core.processed[0].frame_hash, [0x22; 32]);
    let restored = &archive.channels[0];
    assert!(restored.head.public);
    assert_eq!(restored.body.outbox.own_name.as_deref(), Some("owner"));
    assert!(restored.body.outbox.directory.is_empty());
    let kept = &restored.body.outbox.messages[0];
    assert_eq!(kept.wire, channel_wire);
    assert_eq!(kept.recipients.expected.len(), 2);
    assert_eq!(kept.recipients.acknowledged.iter().map(|a| a.id).collect::<Vec<_>>(), acknowledged);
    let membership = restored.body.outbox.membership.as_ref().unwrap();
    assert_eq!(membership.commit, commit);
    assert_eq!(membership.epoch, 7);
    assert_eq!(membership.recipients.acknowledged.iter().map(|a| a.id).collect::<Vec<_>>(), acknowledged);
    let ledger = &restored.body.ledger;
    assert_eq!(ledger.control[0].wire, b"pending ACK wire");
    assert_eq!(ledger.admissions[0].welcome, b"cached Welcome");
    assert_eq!(ledger.invites.len(), 2);
    assert_eq!(ledger.invites[0].invite_id, [0x71; 16]);
    assert_eq!(ledger.invites[0].secret, [0x72; 32]);
    assert_eq!(ledger.invites[0].consumed, None);
    assert_eq!(ledger.invites[1].invite_id, [0x73; 16]);
    assert_eq!(ledger.invites[1].consumed, Some(recipient.pseudonym));
    assert_eq!(ledger.removals.iter().map(|r| r.name.as_str()).collect::<Vec<_>>(), vec!["name:removed", "member:44"]);
    assert_eq!(ledger.commit_acks[0].wire, b"replay ACK wire");
    assert_eq!(ledger.unrouted[0].original_id, unrouted_key.original_id);
    assert_eq!(ledger.unrouted[0].wire, b"unrouted exact ACK wire");
    assert_eq!(sightings(restored), vec![[0x51; 16], [0x52; 16], [0x66; 16], [0x67; 16]]);
}

#[test]
fn v2_rejects_malformed_and_overbound_unrouted_ack_journals() {
    let (mut node, mut host) = compatibility();
    let sender = [0x39; 32];
    host.codec.roles = Table::new();
    host.role(true, "archive-compat", b"role", facts(OWN, b"channel", &[("owner", OWN), ("sender", sender)]), DIRECT_SECRET);
    let key = UnroutedAckKey { original_id: [0xD7; 16], sender_pseudonym: sender };
    let c = &mut node.channels.entries[0].1;
    c.unrouted_ack_order.push(key);
    c.unrouted_ack_journal.insert(key, b"persisted ACK".to_vec());
    let encoded = host.encode(&mut node).unwrap();
    assert!(host.decode(&encoded).is_ok());
    let mut marker = key.original_id.to_vec();
    marker.extend_from_slice(&key.sender_pseudonym);
    let position = encoded.windows(marker.len()).position(|window| window == marker).unwrap();

    let mut unknown_sender = encoded.clone();
    unknown_sender[position + 16..position + 48].fill(0xEE);
    assert!(host.decode(&unknown_sender).is_err());

    let mut oversized = encoded.clone();
    oversized[position - 4..position].copy_from_slice(&257u32.to_be_bytes());
    assert!(host.decode(&oversized).is_err());

    let mut empty_wire = encoded;
    empty_wire[position + 48..position + 52].fill(0);
    assert!(host.decode(&empty_wire).is_err());
}

#[test]
fn a_current_archive_ends_where_it_ends() {
    let (mut node, host) = compatibility();
    let encoded = host.encode(&mut node).unwrap();
    assert_eq!(version_of(&encoded), Some(19));
    assert!(host.decode(&encoded).is_ok());
    for end in 0..encoded.len() {
        assert!(host.decode(&encoded[..end]).is_err());
    }
    let mut longer = encoded;
    longer.push(7);
    assert!(host.decode(&longer).is_err());
    assert_eq!(version_of(b"GCNST"), None);
    assert_eq!(version_of(b"GCNSTM"), None);
    assert_eq!(host.decode(b"not an export").err(), Some(Error::NotAnExport));
}

#[test]
fn each_disorder_of_a_journal_keeps_it_from_being_written() {
    let (mut node, host) = compatibility();
    node.channels.entries[0].1.admission_cache_order.push([1; 32]);
    assert_eq!(host.encode(&mut node), Err(Error::InvalidAdmissionOrder));
    let (mut node, host) = compatibility();
    node.channels.entries[0].1.commit_ack_order.push([1; 16]);
    assert_eq!(host.encode(&mut node), Err(Error::InvalidAckOrder));
    let (mut node, host) = compatibility();
    node.channels.entries[0].1.unrouted_ack_order.push(UnroutedAckKey { original_id: [1; 16], sender_pseudonym: [2; 32] });
    assert_eq!(host.encode(&mut node), Err(Error::InvalidUnroutedOrder));
    let (mut node, host) = compatibility();
    node.channels.entries[0].1.invite_order.push([1; 16]);
    assert_eq!(host.encode(&mut node), Err(Error::InvalidInviteOrder));
    let (mut node, mut host) = compatibility();
    host.message("archive-compat", b"commit", [9; 16]);
    node.channels.entries[0].1.membership_outbox = Some(MembershipOutbox {
        commit_id: [8; 16],
        epoch: 1,
        commit: b"commit".to_vec(),
        expected: Table::new(),
        acknowledged: vec![],
    });
    assert_eq!(host.encode(&mut node), Err(Error::InvalidMembershipJournal));
    let m = node.channels.entries[0].1.membership_outbox.as_mut().unwrap();
    m.commit_id = [9; 16];
    m.acknowledged.push([3; 32]);
    assert_eq!(host.encode(&mut node), Err(Error::InvalidAcknowledgedRecipient));
    let (mut node, host) = compatibility();
    node.owner_transition_failed = true;
    assert_eq!(host.encode(&mut node), Err(Error::OwnerTransitionUnconfirmed));
}

#[test]
fn a_session_that_will_be_takes_the_place_of_one_that_is() {
    let mut host = Host::new(SEED);
    let mut node = state();
    let peer = vec![4; 32];
    for sealed in [b"session now".to_vec(), b"session then".to_vec()] {
        host.codec.sealed_sessions.insert(sealed, None);
    }
    let none = PayloadUsage { items: 0, bytes: 0 };
    node.sessions.insert(peer.clone(), PeerSession { sealed: b"session now".to_vec(), tag: None, usage: none });
    let expires = NOW.checked_add(Duration::from_secs(9)).unwrap();
    node.session_states.insert(peer.clone(), DirectSessionState::InitiatedUnconfirmed { expires });
    let archive = host.decode(&host.encode(&mut node).unwrap()).unwrap();
    assert_eq!(archive.core.sessions[0].sealed, b"session now");
    assert_eq!(archive.core.sessions[0].unconfirmed, Some(9_000));
    let snapshot = Snapshot { bytes: b"session then".to_vec(), tag: None, usage: None };
    let bytes = encode_state_with_session(&mut node, &peer, &snapshot, &host.keys, &host.codec, &protocol(), WALL_MS, NOW).unwrap();
    assert_eq!(host.decode(&bytes).unwrap().core.sessions[0].sealed, b"session then");
}

#[test]
fn credit_makes_the_newest_archive_with_its_receipts() {
    let mut host = Host::new(SEED);
    let mut node = state();
    node.gc2_sessions = true;
    node.gc2_receipts = b"ledger".to_vec();
    assert!(host.encode(&mut node).and_then(|bytes| host.decode(&bytes)).is_err());
    host.codec.receipts.push(b"ledger".to_vec());
    let bytes = host.encode(&mut node).unwrap();
    assert_eq!(version_of(&bytes), Some(21));
    assert_eq!(host.decode(&bytes).unwrap().receipts, Some(b"ledger".to_vec()));
}

#[test]
fn volatile_records_stay_out_of_an_archive() {
    let mut host = Host::new(SEED);
    let mut node = state();
    for (sequence, record) in [(1u64, b"persistent".to_vec()), (2, b"ephemeral".to_vec())] {
        let d = delivery(sequence as u8);
        host.delivery(&d);
        node.pending_1to1.insert(
            [sequence as u8; 16],
            PendingDirect {
                delivery: d,
                logical_record: Some(record),
                sequence,
                next_attempt: NOW,
                expires: NOW.checked_add(Duration::from_secs(60)).unwrap(),
                application_event: false,
            },
        );
    }
    node.next_direct_sequence = 3;
    host.codec.volatile_records.push(b"ephemeral".to_vec());
    let bytes = host.encode(&mut node).unwrap();
    let archive = host.decode(&bytes).unwrap();
    assert_eq!(archive.core.pending.len(), 1);
    assert_eq!(archive.core.pending[0].message_id, [1; 16]);
    assert_eq!(archive.core.head.next_direct_sequence, 3);
    assert!(!bytes.windows(9).any(|w| w == b"ephemeral"));
}

#[test]
fn grants_and_joins_are_sealed_and_come_back() {
    let mut host = Host::new(SEED);
    let mut node = state();
    let grant = ForwardGrant {
        target: contact(9).target,
        frwd_path: "inbox-9".into(),
        hop_key: [0xCC; 32],
        expires_at: UNIX + 100,
        issued_by: vec![9; 32],
    };
    host.codec.grants.insert(b"grant wire with the hop key".to_vec(), grant.clone());
    node.forward_grants.push(grant);
    let own = owned_route(61, OWN, DIRECT_SECRET);
    host.owned_route(&own);
    host.codec.joins.insert(b"prepared".to_vec(), OWN);
    host.codec.direct_secrets.insert(SecretKey { seed: host.keys.seed, pseudonym: OWN }, DIRECT_SECRET);
    let context = SessionContext::of_identity(&host.keys.identity_public, b"pending-join", &OWN, b"gc1/prepared-route/v1");
    host.codec.contexts.insert(context, b"join".to_vec());
    node.prepared.insert(5, PreparedChannelJoin { mls: b"prepared".to_vec(), route: own, display: "me".into() });
    node.next_prep_id = 6;
    let bytes = host.encode(&mut node).unwrap();
    assert!(!bytes.windows(10).any(|w| w == b"grant wire"));
    let archive = host.decode(&bytes).unwrap();
    assert_eq!(archive.policy.grants.len(), 1);
    assert_eq!(archive.next_prep_id, 6);
    assert_eq!(archive.prepared[0].id, 5);
    assert_eq!(archive.prepared[0].display, "me");
    assert_eq!(archive.prepared[0].route.aliases, owned_route(61, OWN, DIRECT_SECRET).aliases);
    assert_eq!(archive.prepared[0].route.direct_secret, DIRECT_SECRET);
}

#[test]
fn the_owner_record_of_an_archive_is_held_to_the_clock() {
    let mut host = Host::new(SEED);
    let mut node = state();
    node.routing = Some(b"directory".to_vec());
    host.codec.directories.push(b"directory".to_vec());
    let bytes = host.encode(&mut node).unwrap();
    let directory = restore_routing_directory(&bytes, &host.keys, &host.codec, &protocol()).unwrap();
    assert_eq!(directory, Some(b"directory".to_vec()));
    let at = |wall_ms: u64| Readings { wall_ms, now: NOW, next_wall_ms: wall_ms, next_now: NOW };
    let read = |wall_ms: u64, offline: bool| restore_owner_aliases(&bytes, offline, at(wall_ms), &host.keys, &host.codec, &protocol());
    assert!(read(WALL_MS, false).unwrap().is_some());
    assert!(read(WALL_MS - 1, false).is_err());
    assert!(read((UNIX + 3600) * 1000, false).is_err());
    assert!(read((UNIX + 3600) * 1000, true).unwrap().is_some());
}

/// Reopens an archive in a node that finds its relays later.
fn restart(host: &Host, bytes: &[u8], st: &mut NodeState, opened: &Table<Vec<u8>, OpenedSession>, wall_ms: u64) -> Result<(), Error> {
    let (permitted, migrated) = (vec![], vec![]);
    let facts = RestoreHost {
        keys: &host.keys,
        codec: &host.codec,
        opened,
        permitted: &permitted,
        migrated: &migrated,
        wall_ms,
        now: NOW,
        now_unix: wall_ms / 1000,
    };
    let back = reopen(st, bytes, facts, &protocol())?;
    install(st, back.archive, back.parts, back.joins, back.channels);
    Ok(())
}

#[test]
fn archive_compat_old_v16_both_grammars_and_v17_upgrade_offline_without_reset() {
    for format in ["owner15", "machine16", "routed16", "routed16 without owner", "owned17", "unified18"] {
        let (mut node, mut host) = compatibility();
        // The same pseudonym has another secret under the node's own seed.
        host.codec.direct_secrets.insert(SecretKey { seed: host.keys.seed, pseudonym: OWN }, [0x33; 32]);
        let join = SessionContext::of_identity(&host.keys.identity_public, b"pending-join", &OWN, b"gc1/prepared-route/v1");
        host.codec.contexts.insert(join, b"join".to_vec());
        host.codec.directories.push(b"directory".to_vec());
        let machine = format == "machine16" || format == "owned17";
        node.application_inbox.machine_owned = machine;
        if format.starts_with("routed16") {
            node.routing = Some(b"directory".to_vec());
        }
        let own = owned_route(61, OWN, DIRECT_SECRET);
        let current = host.encode(&mut node).unwrap();
        let (start, scope, owner, directory, rest) = trailer(&current);
        let mut old = current[..start].to_vec();
        match format {
            "owner15" => put(&mut old, &owner),
            "machine16" => {
                put(&mut old, &scope);
                put(&mut old, &owner);
            }
            "routed16" | "routed16 without owner" => {
                put(&mut old, if format == "routed16" { &owner } else { &[] });
                put(&mut old, &directory);
                old.extend(1u32.to_be_bytes());
                old.extend(14u16.to_be_bytes());
                old.extend(b"archive-compat");
                put(&mut old, &seal_prepared_route(&own, &host.keys, &host.codec).unwrap());
            }
            "owned17" => old = owned17(&current, &host),
            _ => {
                put(&mut old, &scope);
                put(&mut old, &owner);
                put(&mut old, &directory);
                old.extend(rest);
            }
        }
        let tag = match format {
            "owner15" => 0x46,
            "owned17" => 0x48,
            "unified18" => 0x49,
            _ => 0x47,
        };
        old[..6].copy_from_slice(&magic(tag));
        let before = host.decode(&old).unwrap();
        assert_eq!(before.machine_owned, machine, "{format}");
        assert_eq!(before.owner_aliases.is_none(), format == "routed16 without owner");
        let mut restored = state();
        restored.routing = Some(b"directory".to_vec());
        restart(&host, &old, &mut restored, &Table::new(), WALL_MS).unwrap();
        let c = restored.channels.get(&"archive-compat".to_owned()).unwrap();
        assert_eq!(c.blob, b"role");
        assert_eq!(c.own_route.public.pseudonym, OWN);
        assert_eq!(restored.next_direct_sequence, 77);
        assert_eq!(restored.local_contact_generation, 19);
        assert_eq!(restored.application_inbox.messages.next_sequence, 23);
        assert_eq!(restored.application_inbox.machine_owned, machine);
        let upgraded = host.encode(&mut restored).unwrap();
        assert_eq!(upgraded[..6], magic(0x4a));
        let after = host.decode(&upgraded).unwrap();
        assert_eq!(after.machine_owned, machine);
        if format != "owner15" && format != "machine16" {
            let (after, before) = (after.routes[0].current.as_ref().unwrap(), before.routes[0].current.as_ref().unwrap());
            assert_eq!(after.public, before.public);
            assert_eq!(after.aliases, before.aliases);
            assert_eq!(after.direct_secret, before.direct_secret);
        } else {
            assert!(after.routes.is_empty());
        }
        if format == "owned17" {
            let (after, before) = (after.routes[0].previous.as_ref().unwrap(), before.routes[0].previous.as_ref().unwrap());
            assert_eq!(after.aliases, before.aliases);
        }
    }
}

/// Two messages that wait, one of them of a kind that is never kept.
fn waiting() -> (NodeState, Host) {
    let mut host = Host::new(SEED);
    let mut before = state();
    for (sequence, record) in [(1u64, b"persistent".to_vec()), (2, b"ephemeral".to_vec())] {
        let d = delivery(sequence as u8);
        host.delivery(&d);
        before.pending_1to1.insert(
            [sequence as u8; 16],
            PendingDirect {
                delivery: d,
                logical_record: Some(record),
                sequence,
                next_attempt: NOW.checked_add(Duration::from_secs(3)).unwrap(),
                expires: NOW.checked_add(Duration::from_secs(60)).unwrap(),
                application_event: sequence == 1,
            },
        );
    }
    before.next_direct_sequence = 3;
    host.codec.volatile_records.push(b"ephemeral".to_vec());
    (before, host)
}

#[test]
fn restart_drops_volatile_attempts_but_preserves_regular_pending_messages() {
    let (mut before, host) = waiting();
    let encoded = host.encode(&mut before).unwrap();
    let mut restored = state();
    restart(&host, &encoded, &mut restored, &Table::new(), WALL_MS).unwrap();
    assert_eq!(restored.pending_1to1.entries.len(), 1);
    assert!(restored.pending_1to1.contains_key(&[1; 16]));
    assert!(!restored.pending_1to1.contains_key(&[2; 16]));
    assert_eq!(restored.next_direct_sequence, 3);
}

#[test]
fn time_goes_on_while_a_node_is_down() {
    let (mut before, host) = waiting();
    let encoded = host.encode(&mut before).unwrap();
    let mut restored = state();
    restart(&host, &encoded, &mut restored, &Table::new(), WALL_MS + 40_000).unwrap();
    let message = restored.pending_1to1.get(&[1; 16]).unwrap();
    assert_eq!(message.expires, NOW.checked_add(Duration::from_secs(20)).unwrap());
    assert_eq!(message.next_attempt, NOW);
    assert_eq!(message.logical_record.as_deref(), Some(&b"persistent"[..]));
    let mut late = state();
    restart(&host, &encoded, &mut late, &Table::new(), WALL_MS + 60_000).unwrap();
    assert!(late.pending_1to1.entries.is_empty());
    // A clock that was set back leaves nothing its time either.
    let mut early = state();
    restart(&host, &encoded, &mut early, &Table::new(), WALL_MS - 1).unwrap();
    assert!(early.pending_1to1.entries.is_empty());
    // Numbers are not given twice.
    assert_eq!(late.next_direct_sequence, 3);
}

#[test]
fn an_unconfirmed_session_lapses_with_its_messages() {
    let (mut before, mut host) = waiting();
    let peer = delivery(1).peer.identity_pk;
    host.codec.sealed_sessions.insert(b"session".to_vec(), None);
    let none = PayloadUsage { items: 0, bytes: 0 };
    before.sessions.insert(peer.clone(), PeerSession { sealed: b"session".to_vec(), tag: None, usage: none });
    let expires = NOW.checked_add(Duration::from_secs(10)).unwrap();
    before.session_states.insert(peer.clone(), DirectSessionState::InitiatedUnconfirmed { expires });
    let encoded = host.encode(&mut before).unwrap();
    let mut opened: Table<Vec<u8>, OpenedSession> = Table::new();
    opened.insert(
        b"session".to_vec(),
        OpenedSession { sealed: b"sealed anew".to_vec(), tag: None, usage: none, generation: 1, volatile: false },
    );
    let mut soon = state();
    restart(&host, &encoded, &mut soon, &opened, WALL_MS + 4_000).unwrap();
    assert_eq!(soon.sessions.get(&peer).unwrap().sealed, b"sealed anew");
    let left = NOW.checked_add(Duration::from_secs(6)).unwrap();
    assert_eq!(soon.session_states.get(&peer), Some(&DirectSessionState::InitiatedUnconfirmed { expires: left }));
    assert_eq!(soon.pending_1to1.entries.len(), 1);
    let mut later = state();
    restart(&host, &encoded, &mut later, &opened, WALL_MS + 10_000).unwrap();
    assert!(later.sessions.entries.is_empty());
    assert!(later.pending_1to1.entries.is_empty());
    // A session that the host cannot open stops the restart.
    let mut unopened = state();
    assert_eq!(restart(&host, &encoded, &mut unopened, &Table::new(), WALL_MS), Err(Error::SessionRefused));
}

#[test]
fn a_node_that_lives_takes_no_archive() {
    let (mut before, host) = waiting();
    let encoded = host.encode(&mut before).unwrap();
    let mut live = state();
    live.application_inbox.messages.next_sequence = 2;
    assert_eq!(restart(&host, &encoded, &mut live, &Table::new(), WALL_MS), Err(Error::LiveInbox));
    live.application_inbox.machine_owned = true;
    assert_eq!(restart(&host, &encoded, &mut live, &Table::new(), WALL_MS), Err(Error::OwnershipInitialized));
    assert_eq!(may_restore_live(&live, &encoded), Err(Error::OwnershipInitialized));
    assert_eq!(may_restore_live(&state(), &encoded), Err(Error::ConstructorRequired));
    assert_eq!(may_restore_live(&state(), &magic(0x45)), Ok(()));
    let mut credited = encoded.clone();
    credited[..6].copy_from_slice(&magic(0x4c));
    assert_eq!(restart(&host, &credited, &mut state(), &Table::new(), WALL_MS), Err(Error::CreditSelectionRequired));
}

#[test]
fn acknowledgements_go_out_again() {
    let (mut before, mut host) = waiting();
    host.delivery(&delivery(9));
    before.direct_ack_outbox.push(delivery(9));
    let encoded = host.encode(&mut before).unwrap();
    let mut restored = state();
    restart(&host, &encoded, &mut restored, &Table::new(), WALL_MS).unwrap();
    let sends = resend(&restored.direct_ack_outbox);
    assert_eq!(sends.len(), 1);
    assert_eq!(sends[0].destination, delivery(9).peer.aliases[0]);
    assert_eq!(sends[0].cell, cell(9));
}

#[test]
fn a_channel_route_is_kept_replaced_or_readmitted() {
    let (_, host) = compatibility();
    let role = facts(OWN, b"channel", &[("owner", OWN)]);
    let name = "archive-compat".to_owned();
    let own = owned_route(61, OWN, DIRECT_SECRET);
    let at = RoutePlace { name: &name, owner: true, role: &role, known: None, keys: &host.keys, codec: &host.codec, p: &protocol() };
    let plan = |retained: Option<OwnedChannelRoute>, offline: bool, now_unix: u64, authority: bool| {
        plan_route(retained, None, at, offline, now_unix, authority)
    };
    assert!(matches!(plan(Some(own.clone()), true, u64::MAX, false), Ok(RouteWork::Settled { .. })));
    assert!(matches!(plan(Some(own.clone()), false, UNIX, true), Ok(RouteWork::Readmit { .. })));
    assert!(matches!(plan(Some(own.clone()), false, UNIX, false), Err(Error::NoChannelAuthority)));
    match plan(Some(own.clone()), false, UNIX + 3600, true).unwrap() {
        RouteWork::Provision { secret, previous } => {
            assert_eq!(secret, DIRECT_SECRET);
            assert_eq!(previous.unwrap().aliases, own.aliases);
        }
        other => panic!("{other:?}"),
    }
    assert!(matches!(plan(None, false, UNIX, true), Ok(RouteWork::Provision { secret: DIRECT_SECRET, .. })));
    match plan(None, true, UNIX, true).unwrap() {
        RouteWork::Settled { route, .. } => {
            assert!(route.aliases.is_empty());
            assert_eq!(route.direct_secret, DIRECT_SECRET);
        }
        other => panic!("{other:?}"),
    }
    assert_eq!(settle_readmitted(own.clone(), own.aliases.clone(), at).unwrap().aliases, own.aliases);
    assert!(settle_readmitted(own.clone(), vec![], at).is_err());
    assert_eq!(plan_join(&own, true, UNIX, false), Ok(JoinWork::Keep));
    assert_eq!(plan_join(&own, false, UNIX, true), Ok(JoinWork::Readmit));
    assert_eq!(plan_join(&own, false, UNIX, false), Err(Error::NoChannelAuthority));
    assert_eq!(plan_join(&own, true, UNIX + 3600, false), Ok(JoinWork::Drop));
}

#[test]
fn a_received_frame_is_kept_with_its_session_established() {
    let mut host = Host::new(SEED);
    let mut node = state();
    let peer = vec![4; 32];
    for sealed in [b"session now".to_vec(), b"session then".to_vec()] {
        host.codec.sealed_sessions.insert(sealed, None);
    }
    let none = PayloadUsage { items: 0, bytes: 0 };
    node.sessions.insert(peer.clone(), PeerSession { sealed: b"session now".to_vec(), tag: None, usage: none });
    let waiting = DirectSessionState::InitiatedUnconfirmed { expires: NOW.checked_add(Duration::from_secs(9)).unwrap() };
    node.session_states.insert(peer.clone(), waiting);
    let snapshot = Snapshot { bytes: b"session then".to_vec(), tag: None, usage: None };
    let keep = |node: &mut NodeState| encode_received(node, &peer, &snapshot, &host.keys, &host.codec, &protocol(), WALL_MS, NOW);
    let (bytes, previous) = keep(&mut node).unwrap();
    assert_eq!(previous, Some(waiting));
    let kept = host.decode(&bytes).unwrap();
    assert_eq!(kept.core.sessions[0].sealed, b"session then");
    assert_eq!(kept.core.sessions[0].unconfirmed, None);
    assert_eq!(node.session_states.get(&peer), Some(&DirectSessionState::Established));
    // The host could not keep the bytes.
    revert_established(&mut node, &peer, previous);
    assert_eq!(node.session_states.get(&peer), Some(&waiting));
    node.owner_transition_failed = true;
    assert_eq!(keep(&mut node), Err(Error::OwnerTransitionUnconfirmed));
    assert_eq!(node.session_states.get(&peer), Some(&waiting));
}

const RETURNING: [u8; 32] = [0x4E; 32];
const DEPARTED: [u8; 32] = [0x4D; 32];
const CHANNEL_OWNER: [u8; 32] = [0x4C; 32];

/// A member whose channel has "returning" as someone new, with the route that the
/// one before left behind.
fn directory_rejoin_fixture() -> (NodeState, Host, ChannelRoute) {
    let mut host = Host::new(SEED);
    let mut node = state();
    let own = owned_route(46, OWN, DIRECT_SECRET);
    host.owned_route(&own);
    let owner = route(45, CHANNEL_OWNER);
    let obsolete = route(47, DEPARTED);
    host.route(&owner);
    host.route(&obsolete);
    let members = [("me", OWN), ("owner", CHANNEL_OWNER), ("returning", RETURNING)];
    host.role(false, "directory-rejoin", b"member role", facts(OWN, b"rejoin", &members), DIRECT_SECRET);
    let own_public = own.public;
    let mut c = channel(false, b"member role".to_vec(), own);
    c.directory.insert("me".into(), own_public);
    c.directory.insert("owner".into(), owner);
    c.commit_ack_order.push([0x66; 16]);
    c.commit_ack_cache.insert([0x66; 16], ControlWire { route: owner, wire: b"replay ACK wire".to_vec() });
    node.channels.insert("directory-rejoin".into(), c);
    (node, host, obsolete)
}

#[test]
fn directory_legacy_stale_route_reopens_without_changing_mls_or_ack_history() {
    let (mut node, host, obsolete) = directory_rejoin_fixture();
    node.channels.entries[0].1.directory.insert("returning".into(), obsolete);
    let bytes = host.encode(&mut node).unwrap();
    let archive = host.decode(&bytes).unwrap();
    let restored = &archive.channels[0];
    let original = &node.channels.entries[0].1;
    assert!(!restored.body.outbox.directory.iter().any(|m| m.member == "returning"));
    assert_eq!(restored.body.outbox.directory.len(), 1);
    assert_eq!(restored.head.blob, original.blob);
    assert_eq!(archive.routes[0].current.as_ref().unwrap().public, original.own_route.public);
    assert!(restored.body.ledger.control.is_empty());
    assert_eq!(restored.body.ledger.commit_acks.len(), 1);
    assert_eq!(restored.body.ledger.commit_acks[0].wire, b"replay ACK wire");
    let mut fresh = state();
    fresh.routing = Some(b"directory".to_vec());
    restart(&host, &bytes, &mut fresh, &Table::new(), WALL_MS).unwrap();
    let back = &fresh.channels.entries[0].1.directory;
    assert_eq!(back.get(&"returning".to_owned()), None);
    assert_eq!(back.get(&"owner".to_owned()), Some(&route(45, CHANNEL_OWNER)));
    assert_eq!(back.get(&"me".to_owned()), Some(&original.own_route.public));
}

#[test]
fn directory_conflicting_public_cache_cannot_activate_another_current_member() {
    let (mut node, host, _) = directory_rejoin_fixture();
    let owner = *node.channels.entries[0].1.directory.get(&"owner".to_owned()).unwrap();
    node.channels.entries[0].1.directory.insert("returning".into(), owner);
    let bytes = host.encode(&mut node).unwrap();
    let archive = host.decode(&bytes).unwrap();
    let directory = &archive.channels[0].body.outbox.directory;
    assert!(!directory.iter().any(|m| m.member == "returning"));
    assert_eq!(directory.len(), 1);
    assert_eq!(archive.channels[0].head.blob, node.channels.entries[0].1.blob);
}

#[test]
fn a_current_member_stays_in_the_directory() {
    let (mut node, mut host, _) = directory_rejoin_fixture();
    let current = route(48, RETURNING);
    host.route(&current);
    node.channels.entries[0].1.directory.insert("returning".into(), current);
    let archive = host.decode(&host.encode(&mut node).unwrap()).unwrap();
    let directory = &archive.channels[0].body.outbox.directory;
    assert_eq!(directory.iter().map(|m| m.member.as_str()).collect::<Vec<_>>(), vec!["owner", "returning"]);
}

#[test]
fn directory_reconciliation_preserves_empty_duplicate_own_and_route_structure_guards() {
    let (mut node, host, obsolete) = directory_rejoin_fixture();
    node.channels.entries[0].1.directory.insert("returning".into(), obsolete);
    let bytes = host.encode(&mut node).unwrap();
    let wire = host.codec.routes.entries.iter().find(|(_, r)| *r == obsolete).unwrap().0.clone();
    let entry = [&9u16.to_be_bytes()[..], &b"returning"[..], &(wire.len() as u32).to_be_bytes()[..], &wire[..]].concat();
    let start = bytes.windows(entry.len()).position(|w| w == entry).unwrap();
    let end = start + entry.len();
    let first = [&5u16.to_be_bytes()[..], &b"owner"[..]].concat();
    let count_position = bytes.windows(first.len()).position(|w| w == first).unwrap() - 4;
    assert_eq!(bytes[count_position..count_position + 4], 2u32.to_be_bytes());
    let mut duplicate = bytes.clone();
    duplicate.splice(end..end, entry.iter().copied());
    duplicate[count_position..count_position + 4].copy_from_slice(&3u32.to_be_bytes());
    assert!(host.decode(&duplicate).is_err());
    let own = node.channels.entries[0].1.own_route.public;
    let own_wire = host.codec.routes.entries.iter().find(|(_, r)| *r == own).unwrap().0.clone();
    let route_start = end - wire.len();
    let mut own_entry = bytes.clone();
    own_entry[route_start..end].copy_from_slice(&own_wire);
    assert!(host.decode(&own_entry).is_err());
    let mut invalid_route = bytes.clone();
    invalid_route[route_start] = 255;
    assert!(host.decode(&invalid_route).is_err());
    node.channels.entries[0].1.directory.insert(String::new(), obsolete);
    assert!(host.decode(&host.encode(&mut node).unwrap()).is_err());
}

/// An archive of an early version with two messages that wait.
fn early_archive(host: &Host, version: u8) -> Vec<u8> {
    let mut old = magic(0x30 + version).to_vec();
    old.extend(WALL_MS.to_be_bytes());
    old.extend(0u32.to_be_bytes());
    old.extend(0u32.to_be_bytes());
    old.extend(2u32.to_be_bytes());
    for byte in [8u8, 9] {
        old.extend([byte; 16]);
        old.extend(100u64.to_be_bytes());
        old.extend(5_000u64.to_be_bytes());
        let card = host.codec.public_cards.entries.iter().find(|(_, card)| *card == peer(byte)).unwrap().0.clone();
        put(&mut old, &card);
        put(&mut old, b"private");
        old.extend(1u32.to_be_bytes());
        old.extend([1, 3, 0, 0, 0]);
        put(&mut old, &[byte; 8]);
    }
    old.extend(0u32.to_be_bytes());
    old.extend(0u32.to_be_bytes());
    old.extend(0u32.to_be_bytes());
    old
}

#[test]
fn messages_of_early_versions_are_numbered_by_their_place() {
    for version in [2u8, 3, 4] {
        let mut host = Host::new(SEED);
        host.delivery(&delivery(8));
        host.delivery(&delivery(9));
        let archive = host.decode(&early_archive(&host, version)).unwrap();
        assert_eq!(archive.core.pending.iter().map(|p| p.sequence).collect::<Vec<_>>(), vec![1, 2]);
        assert_eq!(archive.core.head.next_direct_sequence, 3);
        let mut node = state();
        node.routing = Some(b"directory".to_vec());
        host.codec.directories.push(b"directory".to_vec());
        restart(&host, &early_archive(&host, version), &mut node, &Table::new(), WALL_MS).unwrap();
        assert_eq!(node.next_direct_sequence, 3);
        assert_eq!(node.pending_1to1.get(&[8; 16]).unwrap().sequence, 1);
        assert_eq!(node.pending_1to1.get(&[9; 16]).unwrap().sequence, 2);
        let again = host.decode(&host.encode(&mut node).unwrap()).unwrap();
        assert_eq!(again.core.pending.len(), 2);
        assert_eq!(again.core.head.next_direct_sequence, 3);
    }
}

#[test]
fn grants_are_held_again_after_a_restart() {
    let mut host = Host::new(SEED);
    let mut node = state();
    node.routing = Some(b"directory".to_vec());
    host.codec.directories.push(b"directory".to_vec());
    let grant = |byte: u8, expires_at: u64| ForwardGrant {
        target: contact(byte).target,
        frwd_path: format!("inbox-{byte}"),
        hop_key: [byte; 32],
        expires_at,
        issued_by: vec![byte; 32],
    };
    for (byte, expires_at) in [(9u8, UNIX + 100), (10, UNIX), (11, UNIX + 100)] {
        host.codec.grants.insert(vec![0xB0, byte], grant(byte, expires_at));
        node.forward_grants.push(grant(byte, expires_at));
    }
    let bytes = host.encode(&mut node).unwrap();
    let (permitted, migrated) = (vec![contact(9).target, contact(10).target], vec![]);
    let opened = Table::new();
    let facts = RestoreHost {
        keys: &host.keys,
        codec: &host.codec,
        opened: &opened,
        permitted: &permitted,
        migrated: &migrated,
        wall_ms: WALL_MS,
        now: NOW,
        now_unix: UNIX,
    };
    let mut fresh = state();
    fresh.routing = Some(b"directory".to_vec());
    fresh.forward_grants.push(grant(9, 1));
    let back = reopen(&fresh, &bytes, facts, &protocol()).unwrap();
    install(&mut fresh, back.archive, back.parts, back.joins, back.channels);
    assert_eq!(fresh.forward_grants, vec![grant(9, UNIX + 100)]);
    assert_eq!(host.decode(&host.encode(&mut fresh).unwrap()).unwrap().policy.grants.len(), 1);
}

/// Takes from codecs what is not in a list.
fn keep_listed(codec: &mut Codec, list: &[ArchiveString]) {
    codec.public_cards.entries.retain(|(k, _)| list.iter().any(|s| matches!(s, ArchiveString::Card(x) if x == k)));
    codec.private_cards.entries.retain(|(k, _)| list.iter().any(|s| matches!(s, ArchiveString::PrivateCard(x) if x == k)));
    codec.routes.entries.retain(|(k, _)| list.iter().any(|s| matches!(s, ArchiveString::Route(x) if x == k)));
    codec.cells.retain(|k| list.iter().any(|s| matches!(s, ArchiveString::Cell(x) if x.same(k))));
    codec.joins.entries.retain(|(k, _)| list.iter().any(|s| matches!(s, ArchiveString::Join(x) if x == k)));
    codec.volatile_records.retain(|k| list.iter().any(|s| matches!(s, ArchiveString::Record(x) if x == k)));
    codec.tls_identities.retain(|k| list.iter().any(|s| matches!(s, ArchiveString::TlsIdentity(x) if x == k)));
    codec.directories.retain(|k| list.iter().any(|s| matches!(s, ArchiveString::Directory(x) if x == k)));
    codec.roles.entries.retain(|(k, _)| {
        list.iter().any(|s| matches!(s, ArchiveString::Role(x) if x.owner == k.owner && x.name == k.name && x.blob == k.blob))
    });
}

#[test]
fn codecs_need_to_know_only_what_an_archive_lists() {
    let (mut channels, mut host) = compatibility();
    channels.routing = Some(b"directory".to_vec());
    host.codec.directories.push(b"directory".to_vec());
    let current = host.encode(&mut channels).unwrap();
    channels.routing = None;
    let old = owned17(&host.encode(&mut channels).unwrap(), &host);
    for bytes in [current, old] {
        host.card(&peer(99));
        host.route(&route(99, [99; 32]));
        host.codec.directories.push(b"another".to_vec());
        let before = format!("{:?}", host.decode(&bytes).unwrap());
        let list = archive_strings(&bytes, &host.keys, &host.codec.contexts, &protocol()).unwrap();
        let codec = std::mem::replace(&mut host.codec, compatibility().1.codec);
        let mut known = Host { keys: keys(SEED), codec };
        keep_listed(&mut known.codec, &list);
        assert!(known.codec.public_cards.entries.is_empty());
        assert_eq!(known.codec.routes.entries.len(), 2);
        assert!(!known.codec.directories.contains(&b"another".to_vec()));
        assert_eq!(format!("{:?}", known.decode(&bytes).unwrap()), before);
        known.codec.routes = Table::new();
        assert!(known.decode(&bytes).is_err());
        host.codec.directories.push(b"directory".to_vec());
    }
    let (mut before, mut host) = waiting();
    let bytes = host.encode(&mut before).unwrap();
    host.card(&peer(99));
    host.codec.cells.push(cell(99));
    let list = archive_strings(&bytes, &host.keys, &host.codec.contexts, &protocol()).unwrap();
    let read = format!("{:?}", host.decode(&bytes).unwrap());
    keep_listed(&mut host.codec, &list);
    assert_eq!(host.codec.public_cards.entries.len(), 1);
    assert!(host.codec.volatile_records.is_empty());
    assert_eq!(host.codec.cells.iter().filter(|c| c.same(&cell(1))).count(), 1);
    assert!(!host.codec.cells.iter().any(|c| c.same(&cell(99))));
    assert_eq!(format!("{:?}", host.decode(&bytes).unwrap()), read);
}

#[test]
fn an_archive_lists_its_byte_strings_in_order() {
    let mut host = Host::new(SEED);
    let identity = vec![0x77; 90];
    host.codec.tls_identities.push(identity.clone());
    let grant = b"grant".to_vec();
    let held = ForwardGrant {
        target: contact(9).target,
        frwd_path: "path".into(),
        hop_key: [1; 32],
        expires_at: UNIX + 60,
        issued_by: vec![3],
    };
    host.codec.grants.insert(grant.clone(), held.clone());
    let mut node = state();
    node.sealed_tls_identity = seal_tls_identity(&identity, &host.keys, &host.codec).unwrap();
    node.forward_grants.push(held);
    let bytes = host.encode(&mut node).unwrap();
    let list = archive_strings(&bytes, &host.keys, &host.codec.contexts, &protocol()).unwrap();
    assert_eq!(list.len(), 4);
    assert!(matches!(&list[0], ArchiveString::Grant(x) if *x == grant));
    assert!(matches!(&list[1], ArchiveString::TlsIdentity(x) if *x == identity));
    assert!(matches!(&list[2], ArchiveString::PrivateCard(x) if x == b"private"));
    assert!(matches!(&list[3], ArchiveString::PrivateCard(x) if x == b"private"));
    for end in 0..bytes.len() {
        let cut = archive_strings(&bytes[..end], &host.keys, &host.codec.contexts, &protocol());
        assert_eq!(cut.err(), Some(Error::Malformed));
    }
    let others = archive_strings(&bytes, &keys(0x42), &host.codec.contexts, &protocol());
    assert_eq!(others.err(), Some(Error::Malformed));
}

#[test]
fn a_route_is_listed_once_the_context_of_its_role_is_known() {
    let (mut node, host) = compatibility();
    let bytes = host.encode(&mut node).unwrap();
    let mut contexts: Table<SessionContext, Vec<u8>> = Table::new();
    for context in own_contexts(&host.keys) {
        let text = host.codec.contexts.get(&context).unwrap().clone();
        contexts.insert(context, text);
    }
    let routes = |contexts: &Table<SessionContext, Vec<u8>>| {
        let list = archive_strings(&bytes, &host.keys, contexts, &protocol()).unwrap();
        list.iter().filter(|s| matches!(s, ArchiveString::Route(_))).count()
    };
    // The node's own routes are sealed, and a directory does not name the node itself.
    assert_eq!(routes(&contexts), 0);
    let role = facts(OWN, b"channel", &[("owner", OWN)]);
    for context in role_contexts(&host.keys, &role) {
        if let Some(text) = host.codec.contexts.get(&context) {
            let text = text.clone();
            contexts.insert(context, text);
        }
    }
    assert_eq!(routes(&contexts), 2);
}
