//! Configuration: safety posture and lifecycle timing.

use vstd::prelude::*;
use vstd::string::StrSliceExecFns;
use crate::error::Error;
use crate::model::SocketAddr;
use crate::time::Duration;

verus! {

/// How relay lanes and maintenance are scheduled.
#[derive(Clone, Copy, Debug, PartialEq, Eq, Structural)]
pub enum SchedulerProfile {
    Production,
    /// Fast and deterministic, without cover.
    Fixture,
    /// As in production, at a compressed cadence.
    CompressedProduction { seed: u64 },
}

/// A local test harness.
#[derive(Clone, Copy, Debug, PartialEq, Eq, Structural)]
pub struct FixtureProfile {
    /// Relay lane and maintenance scheduling.
    pub scheduler: SchedulerProfile,
    /// Whether loopback and private targets may be forwarded to.
    pub allow_local_targets: bool,
    /// Cadence of emission to subscribers.
    pub stream_slot_interval: Duration,
    /// Whether idle slots emit cover cells.
    pub stream_emit_cover: bool,
}

/// Which safety posture a node runs with. It is configured, and never inferred
/// from where the node listens.
#[derive(Clone, Copy, Debug, PartialEq, Eq, Structural)]
pub enum NodeProfile {
    Production,
    /// A harness, which listens on loopback only.
    Fixture(FixtureProfile),
}

/// Which targets a node forwards to: as its operator says, or by default, with
/// or without local ones.
#[derive(Clone, Copy, Debug, PartialEq, Eq, Structural)]
pub enum TargetPolicy {
    Configured,
    Default { allow_local: bool },
}

/// The cadence of emission to subscribers.
#[derive(Clone, Copy, Debug, PartialEq, Eq, Structural)]
pub struct StreamEmission {
    pub slot_interval: Duration,
    /// Whether every slot emits, and not only some by chance.
    pub every_slot: bool,
    pub emit_cover: bool,
}

impl NodeProfile {
    /// Fast, deterministic fixture with cover disabled.
    pub fn fixture() -> (r: Self)
        ensures
            r matches NodeProfile::Fixture(f) && f.scheduler == SchedulerProfile::Fixture && f.allow_local_targets
                && f.stream_slot_interval.nanos == 10_000_000 && !f.stream_emit_cover,
    {
        NodeProfile::Fixture(
            FixtureProfile {
                scheduler: SchedulerProfile::Fixture,
                allow_local_targets: true,
                stream_slot_interval: Duration::from_millis(10),
                stream_emit_cover: false,
            },
        )
    }

    /// Production traffic at a compressed cadence, for runs on one host.
    pub fn compressed_production(seed: u64) -> (r: Self)
        ensures
            r matches NodeProfile::Fixture(f) && f.scheduler == (SchedulerProfile::CompressedProduction { seed }) && f.allow_local_targets
                && f.stream_slot_interval.nanos == 10_000_000 && f.stream_emit_cover,
    {
        NodeProfile::Fixture(
            FixtureProfile {
                scheduler: SchedulerProfile::CompressedProduction { seed },
                allow_local_targets: true,
                stream_slot_interval: Duration::from_millis(10),
                stream_emit_cover: true,
            },
        )
    }

    pub fn is_production(&self) -> (r: bool)
        ensures
            r == (*self == NodeProfile::Production),
    {
        match self {
            NodeProfile::Production => true,
            NodeProfile::Fixture(_) => false,
        }
    }

    pub fn scheduler_profile(&self) -> (r: SchedulerProfile)
        ensures
            r == (match *self {
                NodeProfile::Production => SchedulerProfile::Production,
                NodeProfile::Fixture(f) => f.scheduler,
            }),
    {
        match self {
            NodeProfile::Production => SchedulerProfile::Production,
            NodeProfile::Fixture(f) => f.scheduler,
        }
    }

    /// The operator's policy where there is one. By default production forwards
    /// to no local target.
    pub fn frwd_target_policy(&self, configured: bool) -> (r: TargetPolicy)
        ensures
            r == target_policy(*self, configured),
    {
        if configured {
            return TargetPolicy::Configured;
        }
        match self {
            NodeProfile::Production => TargetPolicy::Default { allow_local: false },
            NodeProfile::Fixture(f) => TargetPolicy::Default { allow_local: f.allow_local_targets },
        }
    }

    /// Whether many nodes share one host, so that the limit on connections from
    /// one source is lifted.
    pub fn shares_host(&self) -> (r: bool)
        ensures
            r == (*self != NodeProfile::Production),
    {
        !self.is_production()
    }

    /// `production_slot` is the slot of the production scheduler.
    pub fn stream_emission(&self, production_slot: Duration) -> (r: StreamEmission)
        ensures
            r == emission(*self, production_slot),
    {
        match self {
            NodeProfile::Production => StreamEmission { slot_interval: production_slot, every_slot: false, emit_cover: true },
            NodeProfile::Fixture(f) => StreamEmission {
                slot_interval: f.stream_slot_interval,
                every_slot: true,
                emit_cover: f.stream_emit_cover,
            },
        }
    }

    pub open spec fn may_listen(self, listen: SocketAddr) -> bool {
        self == NodeProfile::Production || listen.ip.spec_loopback()
    }

    /// A fixture listens on loopback only, so that it cannot be exposed by mistake.
    pub fn check_listen(&self, listen: &SocketAddr) -> (r: Result<(), Error>)
        ensures
            r == (if self.may_listen(*listen) {
                Ok::<(), Error>(())
            } else {
                Err::<(), Error>(Error::FixtureExposed)
            }),
    {
        if self.is_production() || listen.ip.is_loopback() {
            Ok(())
        } else {
            Err(Error::FixtureExposed)
        }
    }
}

/// The end of an address, of twelve characters at most.
pub open spec fn tail_of(s: Seq<char>) -> Seq<char> {
    if s.len() > 12 {
        s.subrange(s.len() - 12, s.len() as int)
    } else {
        s
    }
}

pub fn short_addr_tag(addr: &str) -> (r: String)
    ensures
        r@ == tail_of(addr@),
{
    let len: usize = addr.unicode_len();
    let from: usize = if len > 12 {
        len - 12
    } else {
        0
    };
    let tail = addr.substring_char(from, len);
    assert(tail@ =~= tail_of(addr@));
    tail.to_string()
}

/// Direct-address lifecycle timing.
#[derive(Clone, Copy, Debug, PartialEq, Eq, Structural)]
pub struct AliasLifecycleConfig {
    pub alias_ttl: Duration,
    pub alias_drain: Duration,
    pub poll_interval: Duration,
    pub revoke_retry: Duration,
    pub revoke_timeout: Duration,
}

impl Default for AliasLifecycleConfig {
    /// A day of use, an hour of draining, a minute between polls and between
    /// revocations, ten minutes for a revocation.
    fn default() -> (r: Self)
        ensures
            r.alias_ttl.nanos == 86_400_000_000_000,
            r.alias_drain.nanos == 3_600_000_000_000,
            r.poll_interval.nanos == 60_000_000_000,
            r.revoke_retry.nanos == 60_000_000_000,
            r.revoke_timeout.nanos == 600_000_000_000,
    {
        AliasLifecycleConfig {
            alias_ttl: Duration::from_secs(24 * 60 * 60),
            alias_drain: Duration::from_secs(60 * 60),
            poll_interval: Duration::from_secs(60),
            revoke_retry: Duration::from_secs(60),
            revoke_timeout: Duration::from_secs(10 * 60),
        }
    }
}

impl AliasLifecycleConfig {
    pub open spec fn all_nonzero(self) -> bool {
        self.alias_ttl.nanos != 0 && self.alias_drain.nanos != 0 && self.poll_interval.nanos != 0 && self.revoke_retry.nanos != 0
            && self.revoke_timeout.nanos != 0
    }

    pub fn check(&self) -> (r: Result<(), Error>)
        ensures
            r == (if self.all_nonzero() {
                Ok::<(), Error>(())
            } else {
                Err::<(), Error>(Error::ZeroLifecycleDuration)
            }),
    {
        if self.alias_ttl.is_zero() || self.alias_drain.is_zero() || self.poll_interval.is_zero() || self.revoke_retry.is_zero()
            || self.revoke_timeout.is_zero() {
            return Err(Error::ZeroLifecycleDuration);
        }
        Ok(())
    }
}

/// Production listens anywhere, a fixture on loopback only.
pub proof fn fixtures_listen_on_loopback(profile: NodeProfile, listen: SocketAddr)
    ensures
        profile == NodeProfile::Production ==> profile.may_listen(listen),
        profile != NodeProfile::Production ==> (profile.may_listen(listen) <==> listen.ip.spec_loopback()),
{
}

/// The tag of an address is what it ends in: all of it where it is short, and else its
/// last twelve characters.
pub proof fn a_tag_is_how_an_address_ends(s: Seq<char>)
    ensures
        tail_of(s).len() == (if s.len() < 12 { s.len() as int } else { 12 }),
        forall|i: int| 0 <= i < tail_of(s).len() ==> #[trigger] tail_of(s)[i] == s[s.len() - tail_of(s).len() + i],
{
}

/// A lifecycle is in order while none of its spans is zero.
pub proof fn every_span_counts(c: AliasLifecycleConfig)
    ensures
        c.all_nonzero() <==> c.alias_ttl.nanos > 0 && c.alias_drain.nanos > 0 && c.poll_interval.nanos > 0 && c.revoke_retry.nanos > 0
            && c.revoke_timeout.nanos > 0,
{
}

/// Whom a node of a profile forwards to.
pub open spec fn target_policy(profile: NodeProfile, configured: bool) -> TargetPolicy {
    if configured {
        TargetPolicy::Configured
    } else {
        match profile {
            NodeProfile::Production => TargetPolicy::Default { allow_local: false },
            NodeProfile::Fixture(f) => TargetPolicy::Default { allow_local: f.allow_local_targets },
        }
    }
}

/// How a node of a profile sends on its streams.
pub open spec fn emission(profile: NodeProfile, production_slot: Duration) -> StreamEmission {
    match profile {
        NodeProfile::Production => StreamEmission { slot_interval: production_slot, every_slot: false, emit_cover: true },
        NodeProfile::Fixture(f) => StreamEmission {
            slot_interval: f.stream_slot_interval,
            every_slot: true,
            emit_cover: f.stream_emit_cover,
        },
    }
}

/// Production never forwards to local targets of itself, always sends cover, and sends
/// in slots that are drawn, of the scheduler's length; a fixture does as it is set, in
/// every slot. The operator's policy goes before either.
pub proof fn production_hides_its_traffic(profile: NodeProfile, slot: Duration)
    ensures
        target_policy(profile, true) == TargetPolicy::Configured,
        target_policy(NodeProfile::Production, false) == (TargetPolicy::Default { allow_local: false }),
        emission(NodeProfile::Production, slot).emit_cover,
        !emission(NodeProfile::Production, slot).every_slot,
        emission(NodeProfile::Production, slot).slot_interval == slot,
        profile matches NodeProfile::Fixture(f) ==> target_policy(profile, false) == (TargetPolicy::Default { allow_local: f.allow_local_targets })
            && emission(profile, slot).every_slot && emission(profile, slot).emit_cover == f.stream_emit_cover && emission(profile, slot).slot_interval
            == f.stream_slot_interval,
{
}

} // verus!
