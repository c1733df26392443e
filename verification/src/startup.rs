//! Starting a node: what is refused before anything is opened, where it listens,
//! which relay it starts with and what state it begins in.

use vstd::prelude::*;
use crate::archive_frame::InboxFrame;
use crate::bytes::same_id;
use crate::codec::{Codec, Protocol};
use crate::error::Error;
use crate::model::{contacts, contacts_of, copy_aliases, zeros, NodeInfo, OwnedAliasView, RelayProvision, RelayProvisionView, RelayTarget, SocketAddr};
use crate::node_state::{ApplicationInbox, NodeState, Presence};
use crate::owner_aliases::{first_active, record_error, spec_active_target, Record, RecordView, RestoreClock, Role};
use crate::owner_state::OwnerState;
use crate::profile::{AliasLifecycleConfig, NodeProfile};
use crate::relay_service::ProvisionAuthorities;
use crate::routing::RoutingRuntime;
use crate::table::Table;
use crate::time::Instant;

verus! {

/// Where routing configuration comes from.
#[derive(Clone, Copy, Debug, PartialEq, Eq, Structural)]
pub enum RoutingSource {
    Given,
    /// A production node that is given none looks in its environment.
    Environment,
    /// A fixture that is given none does without.
    Absent,
}

/// Where routing comes from.
pub open spec fn source_of_routing(given: bool, production: bool) -> RoutingSource {
    if given {
        RoutingSource::Given
    } else if production {
        RoutingSource::Environment
    } else {
        RoutingSource::Absent
    }
}

/// What is done with the owner's record.
pub open spec fn owner_work(saved: bool, routed: bool) -> OwnerWork {
    if !saved {
        OwnerWork::Nothing
    } else if routed {
        OwnerWork::Keep
    } else {
        OwnerWork::Readmit
    }
}

/// Why a relay cannot be started with.
pub open spec fn relay_refusal(aliases: nat) -> Result<(), Error> {
    if aliases < 2 {
        Err(Error::ControlAliasMissing)
    } else {
        Ok(())
    }
}

pub fn routing_source(given: bool, profile: &NodeProfile) -> (r: RoutingSource)
    ensures
        r == source_of_routing(given, *profile == NodeProfile::Production),
{
    if given {
        RoutingSource::Given
    } else if profile.is_production() {
        RoutingSource::Environment
    } else {
        RoutingSource::Absent
    }
}

/// How a node is to be started.
#[derive(Debug)]
pub struct StartConfig {
    pub listen: SocketAddr,
    pub advertise: Option<SocketAddr>,
    /// Whether it listens for control connections.
    pub control: bool,
    /// Whether those are secured for remote use.
    pub remote_control: bool,
    /// Whether an installer's bootstrap directory is named.
    pub bootstrap_directory: bool,
    pub profile: NodeProfile,
    /// The relay that hosts this node's inboxes, where it is another.
    pub inbox_relay: Option<NodeInfo>,
    pub alias_lifecycle: AliasLifecycleConfig,
    /// Whether a routing runtime finds relays for the node.
    pub routed: bool,
    /// The service that the node's transport identity stands for.
    pub service_id: [u8; 32],
}

/// Where the node listens. One that left the port open goes back to the port that
/// its saved aliases name, if the saved listener is its own.
pub open spec fn listener(cfg: StartConfig, saved: Option<RecordView>) -> Result<SocketAddr, Error> {
    if saved is Some && !cfg.routed && cfg.inbox_relay is None && cfg.advertise is None && cfg.listen.port == 0 {
        match spec_active_target(saved->0.groups, saved->0.groups.len()) {
            None => Err(Error::MissingActiveAliases),
            Some(target) => if target.address.ip != cfg.listen.ip || target.relay_service_id != cfg.service_id {
                Err(Error::SavedListenerMismatch)
            } else {
                Ok(target.address)
            },
        }
    } else {
        Ok(cfg.listen)
    }
}

pub fn resume_listener(cfg: &StartConfig, saved: Option<&Record>) -> (r: Result<SocketAddr, Error>)
    ensures
        r == listener(*cfg, match saved {
            Some(record) => Some(record@),
            None => None,
        }),
{
    match saved {
        Some(record) => {
            if !cfg.routed && cfg.inbox_relay.is_none() && cfg.advertise.is_none() && cfg.listen.port == 0 {
                let target = match record.active_target() {
                    Ok(target) => target,
                    Err(e) => {
                        return Err(e);
                    },
                };
                if !target.address.ip.same(&cfg.listen.ip) || !same_id(&target.relay_service_id, &cfg.service_id) {
                    return Err(Error::SavedListenerMismatch);
                }
                return Ok(target.address);
            }
            Ok(cfg.listen)
        },
        None => Ok(cfg.listen),
    }
}

/// The relay that saved aliases must be leased from: the configured one, the one
/// they name where routing finds relays, or this node itself.
pub open spec fn expected_target(cfg: StartConfig, listen: SocketAddr, saved: RecordView) -> Result<RelayTarget, Error> {
    match cfg.inbox_relay {
        Some(card) => match card.spec_primary() {
            Some(contact) => Ok(contact.target),
            None => Err(Error::RelayWithoutContact),
        },
        None => if cfg.routed {
            match spec_active_target(saved.groups, saved.groups.len()) {
                Some(target) => Ok(target),
                None => Err(Error::MissingActiveAliases),
            }
        } else {
            Ok(
                RelayTarget {
                    address: match cfg.advertise {
                        Some(address) => address,
                        None => listen,
                    },
                    relay_service_id: cfg.service_id,
                },
            )
        },
    }
}

fn expect_target(cfg: &StartConfig, listen: SocketAddr, saved: &Record) -> (r: Result<RelayTarget, Error>)
    ensures
        r == expected_target(*cfg, listen, saved@),
{
    match &cfg.inbox_relay {
        Some(card) => match card.primary() {
            Some(contact) => Ok(contact.target),
            None => Err(Error::RelayWithoutContact),
        },
        None => {
            if cfg.routed {
                return saved.active_target();
            }
            let address = match cfg.advertise {
                Some(address) => address,
                None => listen,
            };
            Ok(RelayTarget { address, relay_service_id: cfg.service_id })
        },
    }
}

/// Why a node with saved aliases is not started.
pub open spec fn saved_refusal(cfg: StartConfig, listen: SocketAddr, saved: RecordView, wall_ms: u64, codec: Codec, p: Protocol) -> Option<Error> {
    match expected_target(cfg, listen, saved) {
        Err(e) => Some(e),
        Ok(target) => match record_error(saved, target, codec, p) {
            Some(e) => Some(e),
            None => if saved.captured_ms == 0 || wall_ms < saved.captured_ms {
                Some(Error::ClockPrecedesSaved)
            } else {
                None
            },
        },
    }
}

/// Why a configuration is refused wherever the node listens.
pub open spec fn config_refusal(cfg: StartConfig, listen: SocketAddr) -> Option<Error> {
    if !cfg.profile.may_listen(listen) {
        Some(Error::FixtureExposed)
    } else if !cfg.alias_lifecycle.all_nonzero() {
        Some(Error::ZeroLifecycleDuration)
    } else if !cfg.control && cfg.remote_control {
        Some(Error::ControlWithoutListener)
    } else {
        None
    }
}

/// Where a node is to listen, or why it is not started.
pub open spec fn start_plan(cfg: StartConfig, saved: Option<RecordView>, wall_ms: u64, codec: Codec, p: Protocol) -> Result<SocketAddr, Error> {
    if cfg.bootstrap_directory {
        Err(Error::ManagedBootstrap)
    } else {
        match listener(cfg, saved) {
            Err(e) => Err(e),
            Ok(listen) => match (match saved {
                Some(record) => saved_refusal(cfg, listen, record, wall_ms, codec, p),
                None => None,
            }) {
                Some(e) => Err(e),
                None => match config_refusal(cfg, listen) {
                    Some(e) => Err(e),
                    None => Ok(listen),
                },
            },
        }
    }
}

/// A node that may be started: where it listens, and the clock of its saved
/// aliases.
#[derive(Debug)]
pub struct Start {
    pub listen: SocketAddr,
    pub clock: Option<RestoreClock>,
}

fn check_config(cfg: &StartConfig, listen: &SocketAddr) -> (r: Result<(), Error>)
    ensures
        r == crate::owner_aliases::outcome(config_refusal(*cfg, *listen)),
{
    match cfg.profile.check_listen(listen) {
        Ok(()) => {},
        Err(e) => {
            return Err(e);
        },
    }
    match cfg.alias_lifecycle.check() {
        Ok(()) => {},
        Err(e) => {
            return Err(e);
        },
    }
    if !cfg.control && cfg.remote_control {
        return Err(Error::ControlWithoutListener);
    }
    Ok(())
}

/// Checks a configuration against the saved aliases, and says where to listen.
pub fn plan_start(cfg: &StartConfig, saved: Option<&Record>, wall_ms: u64, now: Instant, codec: &Codec, p: &Protocol) -> (r: Result<Start, Error>)
    ensures
        ({
            let record = match saved {
                Some(record) => Some(record@),
                None => None,
            };
            match start_plan(*cfg, record, wall_ms, *codec, *p) {
                Ok(listen) => {
                    &&& r matches Ok(start) && start.listen == listen
                    &&& r->Ok_0.clock is Some == saved is Some
                    &&& r->Ok_0.clock is Some ==> r->Ok_0.clock->0.set_at(wall_ms, now)
                },
                Err(e) => r == Err::<Start, Error>(e),
            }
        }),
{
    if cfg.bootstrap_directory {
        return Err(Error::ManagedBootstrap);
    }
    let listen = match resume_listener(cfg, saved) {
        Ok(listen) => listen,
        Err(e) => {
            return Err(e);
        },
    };
    let clock = match saved {
        Some(record) => {
            let target = match expect_target(cfg, listen, record) {
                Ok(target) => target,
                Err(e) => {
                    return Err(e);
                },
            };
            match record.validate(&target, codec, p) {
                Ok(()) => {},
                Err(e) => {
                    return Err(e);
                },
            }
            match RestoreClock::new(record.captured_ms, wall_ms, now) {
                Ok(clock) => Some(clock),
                Err(e) => {
                    return Err(e);
                },
            }
        },
        None => None,
    };
    match check_config(cfg, &listen) {
        Ok(()) => {},
        Err(e) => {
            return Err(e);
        },
    }
    Ok(Start { listen, clock })
}

/// Explicit configuration is never overridden: a node that names a port, or an
/// address to advertise, listens where it says.
pub proof fn a_named_port_is_kept(cfg: StartConfig, saved: Option<RecordView>, wall_ms: u64, codec: Codec, p: Protocol)
    requires
        cfg.listen.port != 0 || cfg.advertise is Some,
        start_plan(cfg, saved, wall_ms, codec, p) is Ok,
    ensures
        start_plan(cfg, saved, wall_ms, codec, p) == Ok::<SocketAddr, Error>(cfg.listen),
{
}

/// A fixture is never exposed, whatever its archive says.
pub proof fn no_fixture_is_exposed(cfg: StartConfig, saved: Option<RecordView>, wall_ms: u64, codec: Codec, p: Protocol)
    requires
        cfg.profile != NodeProfile::Production,
        start_plan(cfg, saved, wall_ms, codec, p) is Ok,
    ensures
        start_plan(cfg, saved, wall_ms, codec, p)->Ok_0.ip.spec_loopback(),
{
}

/// The relay service that the node is, once it listens.
pub fn own_target(cfg: &StartConfig, local: SocketAddr) -> (r: RelayTarget)
    ensures
        r.relay_service_id == cfg.service_id,
        r.address == (match cfg.advertise {
            Some(address) => address,
            None => local,
        }),
{
    RelayTarget {
        address: match cfg.advertise {
            Some(address) => address,
            None => local,
        },
        relay_service_id: cfg.service_id,
    }
}

/// A relay of which nothing is known.
pub open spec fn no_provision() -> RelayProvisionView {
    RelayProvisionView { aliases: Seq::empty(), frwd_path: Seq::empty(), hop_key: zeros::<32>() }
}

pub fn empty_provision() -> (r: RelayProvision)
    ensures
        r@ == no_provision(),
{
    let hop_key = [0u8; 32];
    proof {
        crate::record::lemma_same_array(hop_key, zeros::<32>());
    }
    let r = RelayProvision { aliases: Vec::new(), frwd_path: String::new(), hop_key };
    assert(r@.aliases =~= Seq::<OwnedAliasView>::empty());
    assert(r@.frwd_path =~= Seq::<char>::empty());
    r
}

/// The provision that the active group of a record names.
pub open spec fn active_provision(record: RecordView) -> Option<RelayProvisionView> {
    let i = first_active(record.groups, record.groups.len());
    if i < record.groups.len() {
        Some(record.groups[i].provision)
    } else {
        None
    }
}

proof fn lemma_first_active_stays(record: RecordView, m: nat, n: nat)
    requires
        m <= n,
        first_active(record.groups, m) < m,
    ensures
        first_active(record.groups, n) == first_active(record.groups, m),
    decreases n,
{
    if m < n {
        lemma_first_active_stays(record, m, (n - 1) as nat);
    }
}

fn find_active(record: &Record) -> (r: Option<&RelayProvision>)
    ensures
        match r {
            Some(provision) => active_provision(record@) == Some(provision@),
            None => active_provision(record@) is None,
        },
{
    let ghost gs = record@.groups;
    let mut i: usize = 0;
    while i < record.groups.len()
        invariant
            i <= record.groups.len(),
            gs == record@.groups,
            first_active(gs, i as nat) == i,
        decreases record.groups.len() - i,
    {
        assert(gs[i as int] == record.groups@[i as int]@);
        match record.groups[i].role {
            Role::Active => {
                proof {
                    lemma_first_active_stays(record@, (i + 1) as nat, gs.len());
                }
                return Some(&record.groups[i].provision);
            },
            _ => {},
        }
        i += 1;
    }
    None
}

/// The relay that a node with a routing runtime starts with: the one it had, or
/// the configured one, or none yet.
pub fn routed_relay(cfg: &StartConfig, saved: Option<&Record>) -> (r: RelayProvision)
    ensures
        r@ == (match (match saved {
            Some(record) => active_provision(record@),
            None => None,
        }) {
            Some(provision) => provision,
            None => match (match cfg.inbox_relay {
                Some(card) => card@.provisioning,
                None => None,
            }) {
                Some(provision) => provision,
                None => no_provision(),
            },
        }),
{
    match saved {
        Some(record) => match find_active(record) {
            Some(provision) => {
                return provision.clone();
            },
            None => {},
        },
        None => {},
    }
    match &cfg.inbox_relay {
        Some(card) => match &card.provisioning {
            Some(provision) => {
                return provision.clone();
            },
            None => {},
        },
        None => {},
    }
    empty_provision()
}

/// Checks the relay that a node without routing starts with: it needs one alias
/// for messages and one for control.
pub fn check_relay(provision: &RelayProvision) -> (r: Result<(), Error>)
    ensures
        r == relay_refusal(provision.aliases@.len()),
{
    if provision.aliases.len() < 2 {
        Err(Error::ControlAliasMissing)
    } else {
        Ok(())
    }
}

/// The relay with the aliases that were restored.
pub fn restored_relay(relay: RelayProvision, restored: Option<&Record>) -> (r: Result<RelayProvision, Error>)
    ensures
        match restored {
            None => r matches Ok(out) && out == relay,
            Some(record) => match active_provision(record@) {
                Some(provision) => r matches Ok(out) && out@ == (RelayProvisionView { aliases: provision.aliases, ..relay@ }),
                None => r == Err::<RelayProvision, Error>(Error::MissingRestoredAliases),
            },
        },
{
    match restored {
        None => Ok(relay),
        Some(record) => match find_active(record) {
            Some(provision) => {
                let out = RelayProvision {
                    aliases: copy_aliases(&provision.aliases),
                    frwd_path: relay.frwd_path,
                    hop_key: relay.hop_key,
                };
                Ok(out)
            },
            None => Err(Error::MissingRestoredAliases),
        },
    }
}

/// What a node has before anything happens to it.
pub open spec fn is_fresh(st: NodeState) -> bool {
    &&& st.sessions.entries@.len() == 0 && st.session_states.entries@.len() == 0
    &&& st.peer_routes.entries@.len() == 0 && st.peer_route_generations.entries@.len() == 0
    &&& st.local_contact_generation == 1
    &&& st.pending_1to1.entries@.len() == 0
    &&& st.next_direct_sequence == 1
    &&& st.direct_ack_outbox@.len() == 0
    &&& st.processed_direct.entries@.len() == 0 && st.processed_direct_order@.len() == 0
    &&& st.channels.entries@.len() == 0
    &&& st.presence.direct.entries@.len() == 0 && st.presence.direct_counters.entries@.len() == 0
    &&& st.presence.channel.entries@.len() == 0 && st.presence.channel_counters.entries@.len() == 0
    &&& st.presence.direct_opt_in@.len() == 0 && st.presence.channel_opt_in@.len() == 0
    &&& st.forward_grants@.len() == 0
    &&& st.application_inbox.messages.next_sequence == 1 && st.application_inbox.messages.entries@.len() == 0
    &&& st.application_inbox.central_ownership is None && !st.application_inbox.machine_owned
    &&& !st.application_inbox.local_routing_policy
    &&& st.prepared.entries@.len() == 0
    &&& st.next_prep_id == 1
    &&& !st.owner_transition_failed
}

/// What becomes of saved aliases while a node starts.
#[derive(Clone, Copy, Debug, PartialEq, Eq, Structural)]
pub enum OwnerWork {
    /// There are none.
    Nothing,
    /// They are taken up as they are; routing recovers them later.
    Keep,
    /// Each is re-admitted at the relay first.
    Readmit,
}

pub fn plan_owner(saved: bool, routed: bool) -> (r: OwnerWork)
    ensures
        r == owner_work(saved, routed),
{
    if !saved {
        OwnerWork::Nothing
    } else if routed {
        OwnerWork::Keep
    } else {
        OwnerWork::Readmit
    }
}

/// The authorities of a relay that starts: none, and where routing gates transit,
/// no real work until the relay is known.
pub fn first_authorities(runtime: Option<&RoutingRuntime>) -> (r: ProvisionAuthorities)
    ensures
        r.wf(),
        r.frwd.entries@.len() == 0,
        r.by_create_path.entries@.len() == 0,
        r.pending.entries@.len() == 0,
        r.admitted == 0,
        r.transit_ready == (match runtime {
            Some(t) => t.gate(),
            None => None,
        }),
{
    let mut authorities = ProvisionAuthorities::default();
    match runtime {
        Some(t) => {
            t.gate_transit(&mut authorities);
        },
        None => {},
    }
    authorities
}

/// What is done once a node's state is in place, before it takes in anything.
#[derive(Clone, Copy, Debug, PartialEq, Eq, Structural)]
pub struct FinishPlan {
    /// Tell every peer of the node's contacts, which are new, and keep that first.
    pub announce: bool,
    /// Keep the state.
    pub keep: bool,
}

/// A node that was restored tells its peers of its contacts, unless it finds its
/// relays only later.
pub fn plan_finish(restored: bool, routed: bool, durable: bool) -> (r: FinishPlan)
    ensures
        r.announce == (restored && !routed),
        r.keep == durable,
{
    FinishPlan { announce: restored && !routed, keep: durable }
}

/// The state of a node that starts, with its relay and nothing else.
pub fn fresh_state(
    client_relay: RelayProvision,
    alias_lifecycle: AliasLifecycleConfig,
    routing: Option<Vec<u8>>,
    sealed_tls_identity: Vec<u8>,
    gc2_sessions: bool,
    gc2_receipts: Vec<u8>,
    wall_ms: u64,
    now: Instant,
) -> (r: Result<NodeState, Error>)
    ensures
        match r {
            Ok(st) => {
                &&& is_fresh(st)
                &&& st.tables_wf()
                &&& st.owner.wf()
                &&& st.owner.client_relay == client_relay
                &&& st.owner.public_aliases@ == contacts_of(client_relay.aliases@)
                &&& st.owner.staged_contact_aliases is None && st.owner.unannounced_old_contact_aliases is None
                &&& st.owner.unannounced_contact_deadlines is None && st.owner.draining_contact_aliases@.len() == 0
                &&& st.owner.owner_alias_origins.entries@.len() == 0 && st.owner.owner_alias_renewals.entries@.len() == 0
                &&& st.owner.contact_aliases_activated == now
                &&& st.owner.alias_lifecycle_timing == alias_lifecycle
                &&& st.owner.routed == (routing is Some)
                &&& st.owner.owner_clock.set_at(wall_ms, now)
                &&& st.routing == routing
                &&& st.sealed_tls_identity == sealed_tls_identity
                &&& st.gc2_sessions == gc2_sessions
                &&& st.gc2_receipts == gc2_receipts
            },
            Err(e) => wall_ms == 0 && e == Error::ClockPrecedesSaved,
        },
        r is Err <==> wall_ms == 0,
{
    let owner_clock = match RestoreClock::fresh(wall_ms, now) {
        Ok(clock) => clock,
        Err(e) => {
            return Err(e);
        },
    };
    let public_aliases = contacts(&client_relay.aliases);
    let routed = routing.is_some();
    Ok(
        NodeState {
            owner: OwnerState {
                client_relay,
                staged_contact_aliases: None,
                unannounced_old_contact_aliases: None,
                unannounced_contact_deadlines: None,
                draining_contact_aliases: Vec::new(),
                owner_alias_origins: Table::new(),
                owner_alias_renewals: Table::new(),
                contact_aliases_activated: now,
                alias_lifecycle_timing: alias_lifecycle,
                owner_clock,
                public_aliases,
                routed,
            },
            owner_transition_failed: false,
            gc2_sessions,
            gc2_receipts,
            routing,
            sealed_tls_identity,
            sessions: Table::new(),
            session_states: Table::new(),
            peer_routes: Table::new(),
            peer_route_generations: Table::new(),
            local_contact_generation: 1,
            pending_1to1: Table::new(),
            next_direct_sequence: 1,
            direct_ack_outbox: Vec::new(),
            processed_direct: Table::new(),
            processed_direct_order: Vec::new(),
            channels: Table::new(),
            presence: Presence {
                direct: Table::new(),
                direct_counters: Table::new(),
                direct_opt_in: Vec::new(),
                channel: Table::new(),
                channel_counters: Table::new(),
                channel_opt_in: Vec::new(),
            },
            forward_grants: Vec::new(),
            application_inbox: ApplicationInbox {
                messages: InboxFrame { next_sequence: 1, entries: Vec::new() },
                central_ownership: None,
                machine_owned: false,
                local_routing_policy: false,
            },
            prepared: Table::new(),
            next_prep_id: 1,
        },
    )
}

/// A node is started exactly where it is not to manage a bootstrap directory, its
/// saved aliases are in order for the relay that they must be leased from and were not
/// captured in the future, it may listen where it is to, every span of its alias
/// lifecycle is one, and remote control has a control listener.
pub proof fn a_node_starts_where_all_is_in_order(cfg: StartConfig, saved: Option<RecordView>, wall_ms: u64, codec: Codec, p: Protocol)
    ensures
        start_plan(cfg, saved, wall_ms, codec, p) is Ok <==> {
            &&& !cfg.bootstrap_directory
            &&& listener(cfg, saved) matches Ok(listen) && {
                &&& saved matches Some(record) ==> {
                    &&& expected_target(cfg, listen, record) matches Ok(target) && record_error(record, target, codec, p) is None
                    &&& 0 < record.captured_ms <= wall_ms
                }
                &&& cfg.profile == NodeProfile::Production || listen.ip.spec_loopback()
                &&& cfg.alias_lifecycle.alias_ttl.nanos != 0
                &&& cfg.alias_lifecycle.alias_drain.nanos != 0
                &&& cfg.alias_lifecycle.poll_interval.nanos != 0
                &&& cfg.alias_lifecycle.revoke_retry.nanos != 0
                &&& cfg.alias_lifecycle.revoke_timeout.nanos != 0
                &&& cfg.control || !cfg.remote_control
            }
        },
        start_plan(cfg, saved, wall_ms, codec, p) is Ok ==> start_plan(cfg, saved, wall_ms, codec, p) == listener(cfg, saved),
{
}

/// A node that left its port open, without a relay of another, without routing and
/// without an address to advertise, goes back to the place that its saved aliases name,
/// which must be its own: at the address that it listens on, under its own name. Any
/// other listens where it is configured to.
pub proof fn an_open_port_goes_back_to_its_place(cfg: StartConfig, record: RecordView)
    ensures
        listener(cfg, None) == Ok::<SocketAddr, Error>(cfg.listen),
        cfg.listen.port != 0 || cfg.advertise is Some || cfg.inbox_relay is Some || cfg.routed ==> listener(cfg, Some(record)) == Ok::<
            SocketAddr,
            Error,
        >(cfg.listen),
        cfg.listen.port == 0 && cfg.advertise is None && cfg.inbox_relay is None && !cfg.routed ==> match spec_active_target(
            record.groups,
            record.groups.len(),
        ) {
            None => listener(cfg, Some(record)) == Err::<SocketAddr, Error>(Error::MissingActiveAliases),
            Some(target) => if target.address.ip == cfg.listen.ip && target.relay_service_id == cfg.service_id {
                listener(cfg, Some(record)) == Ok::<SocketAddr, Error>(target.address)
            } else {
                listener(cfg, Some(record)) == Err::<SocketAddr, Error>(Error::SavedListenerMismatch)
            },
        },
{
}

/// Saved aliases must be leased from the configured relay where there is one, from the
/// relay that they name where routing finds relays, and else from the node itself, at
/// the address that it advertises or listens on.
pub proof fn saved_aliases_have_one_relay(cfg: StartConfig, listen: SocketAddr, saved: RecordView)
    ensures
        cfg.inbox_relay matches Some(card) ==> match card.spec_primary() {
            Some(contact) => expected_target(cfg, listen, saved) == Ok::<RelayTarget, Error>(contact.target),
            None => expected_target(cfg, listen, saved) == Err::<RelayTarget, Error>(Error::RelayWithoutContact),
        },
        cfg.inbox_relay is None && cfg.routed ==> match spec_active_target(saved.groups, saved.groups.len()) {
            Some(target) => expected_target(cfg, listen, saved) == Ok::<RelayTarget, Error>(target),
            None => expected_target(cfg, listen, saved) == Err::<RelayTarget, Error>(Error::MissingActiveAliases),
        },
        cfg.inbox_relay is None && !cfg.routed ==> (expected_target(cfg, listen, saved) matches Ok(target) && target.relay_service_id
            == cfg.service_id && (cfg.advertise is None ==> target.address == listen) && (cfg.advertise matches Some(at) ==> target.address
            == at)),
{
}

/// A node that has just begun counts from one, knows nobody, holds nothing and owns
/// nothing.
pub proof fn a_fresh_node_has_nothing(st: NodeState)
    requires
        is_fresh(st),
    ensures
        st.next_direct_sequence == 1,
        st.local_contact_generation == 1,
        st.next_prep_id == 1,
        st.application_inbox.messages.next_sequence == 1,
        forall|k: Seq<u8>| #[trigger] st.sessions.lookup(k) is None,
        forall|k: Seq<u8>| #[trigger] st.session_states.lookup(k) is None,
        forall|k: Seq<u8>| #[trigger] st.peer_routes.lookup(k) is None,
        forall|k: Seq<u8>| #[trigger] st.peer_route_generations.lookup(k) is None,
        forall|k: Seq<u8>| #[trigger] st.pending_1to1.lookup(k) is None,
        forall|k: Seq<char>| #[trigger] st.channels.lookup(k) is None,
        forall|k: u64| #[trigger] st.prepared.lookup(k) is None,
        st.direct_ack_outbox@.len() == 0,
        st.processed_direct_order@.len() == 0,
        st.presence.direct_opt_in@.len() == 0,
        st.presence.channel_opt_in@.len() == 0,
        st.forward_grants@.len() == 0,
        st.application_inbox.messages.entries@.len() == 0,
        st.application_inbox.central_ownership is None,
        !st.application_inbox.machine_owned,
        !st.application_inbox.local_routing_policy,
        !st.owner_transition_failed,
        no_provision().aliases.len() == 0,
        no_provision().frwd_path.len() == 0,
        forall|i: int| 0 <= i < 32 ==> #[trigger] no_provision().hop_key@[i] == 0,
{
}

/// Routing that is given is taken; else production looks in the environment, and
/// fixtures go without. A relay needs an alias for messages and one for control. A saved
/// record is kept under routing and readmitted without; where none is saved there is
/// nothing to do.
pub proof fn a_start_goes_by_what_it_finds(given: bool, production: bool, saved: bool, routed: bool, aliases: nat)
    ensures
        source_of_routing(given, production) == RoutingSource::Given <==> given,
        source_of_routing(given, production) == RoutingSource::Environment <==> !given && production,
        source_of_routing(given, production) == RoutingSource::Absent <==> !given && !production,
        relay_refusal(aliases) is Ok <==> aliases >= 2,
        relay_refusal(aliases) is Err ==> relay_refusal(aliases) == Err::<(), Error>(Error::ControlAliasMissing),
        owner_work(saved, routed) == OwnerWork::Nothing <==> !saved,
        owner_work(saved, routed) == OwnerWork::Keep <==> saved && routed,
        owner_work(saved, routed) == OwnerWork::Readmit <==> saved && !routed,
{
}

proof fn lemma_first_active(groups: Seq<crate::owner_aliases::GroupView>, n: nat)
    requires
        n <= groups.len(),
    ensures
        0 <= first_active(groups, n) <= n,
        first_active(groups, n) < n ==> groups[first_active(groups, n)].role is Active,
        forall|j: int| 0 <= j < first_active(groups, n) ==> (#[trigger] groups[j]).role !is Active,
    decreases n,
{
    if n > 0 {
        lemma_first_active(groups, (n - 1) as nat);
    }
}

/// The provision that a record names is that of its first active group, and there is
/// none where no group is active.
pub proof fn a_record_names_the_active_provision(record: RecordView, i: int)
    requires
        0 <= i < record.groups.len(),
    ensures
        record.groups[i].role is Active && (forall|j: int| 0 <= j < i ==> (#[trigger] record.groups[j]).role !is Active) ==> active_provision(record)
            == Some(record.groups[i].provision),
        (forall|j: int| 0 <= j < record.groups.len() ==> (#[trigger] record.groups[j]).role !is Active) ==> active_provision(record) is None,
{
    lemma_first_active(record.groups, record.groups.len());
    let k = first_active(record.groups, record.groups.len());
    if record.groups[i].role is Active && (forall|j: int| 0 <= j < i ==> (#[trigger] record.groups[j]).role !is Active) {
        assert(k == i);
    }
}

} // verus!
