//! The owner's receive-route lifecycle: its clock, its sealed record, and how
//! the record bounds what is restored.

use vstd::prelude::*;
use vstd::utf8::encode_utf8;
use crate::bytes::{has_id, same_id, text_len};
use crate::codec::{Codec, Protocol};
use crate::error::Error;
use crate::model::{copy_aliases, is_zero, views, zero_id, AliasContact, OwnedAlias, OwnedAliasView, RelayProvision, RelayProvisionView, RelayTarget};
use crate::table::{among, distinct, Table};
use crate::time::{ms_up, Duration, Instant};

verus! {

/// What a group of aliases is kept for.
#[derive(Clone, Copy, Debug, PartialEq, Eq, Structural)]
pub enum Role {
    Active,
    Staged,
    Unannounced,
    Draining,
}

/// The budget once granted to a queue.
#[derive(Clone, Copy, Debug, PartialEq, Eq, Structural)]
pub struct Limit {
    pub role: Role,
    pub deadline_ms: u64,
    pub action_ms: u64,
    pub receive_until_ms: u64,
}

/// Host-clock observations are authenticated local evidence, not external time.
/// Restoring time can only consume a sealed budget. Regression is a refusal.
#[derive(Clone, Debug)]
pub struct RestoreClock {
    pub start: Instant,
    pub wall_start_ms: u64,
    pub last_wall_ms: u64,
    pub last_instant: Instant,
    pub last_effective_ms: u64,
    pub limits: Table<[u8; 32], Limit>,
    pub activation: Option<(Vec<[u8; 32]>, u64)>,
}

impl RestoreClock {
    /// The clock has moved forward only, and its tables are in order.
    pub open spec fn wf(self) -> bool {
        &&& self.start.nanos <= self.last_instant.nanos
        &&& self.wall_start_ms <= self.last_wall_ms
        &&& self.last_effective_ms as int == effective_time(self, self.last_wall_ms, self.last_instant)
        &&& self.limits.wf()
    }

    /// The parts that an observation leaves alone.
    pub open spec fn same_budget(self, other: RestoreClock) -> bool {
        &&& self.start == other.start
        &&& self.wall_start_ms == other.wall_start_ms
        &&& self.limits == other.limits
        &&& self.activation == other.activation
    }
}

/// Milliseconds of monotonic time since the clock's start, rounded up.
pub open spec fn elapsed_ms(clock: RestoreClock, now: Instant) -> nat {
    if now.nanos >= clock.start.nanos {
        ms_up((now.nanos - clock.start.nanos) as nat)
    } else {
        0
    }
}

/// The later of wall time and of monotonic time since the start.
pub open spec fn effective_time(clock: RestoreClock, wall_ms: u64, now: Instant) -> int {
    let monotonic = clock.wall_start_ms + elapsed_ms(clock, now);
    if wall_ms >= monotonic {
        wall_ms as int
    } else {
        monotonic
    }
}

/// What an observation answers.
pub open spec fn observation(clock: RestoreClock, wall_ms: u64, now: Instant) -> Result<u64, Error> {
    if wall_ms < clock.last_wall_ms || now.nanos < clock.last_instant.nanos {
        Err(Error::ClockRegressed)
    } else if clock.wall_start_ms + elapsed_ms(clock, now) > u64::MAX {
        Err(Error::ElapsedOverflow)
    } else if effective_time(clock, wall_ms, now) < clock.last_effective_ms {
        Err(Error::EffectiveClockRegressed)
    } else {
        Ok(effective_time(clock, wall_ms, now) as u64)
    }
}

impl RestoreClock {
    /// The clock once a reading is noted. One that is refused changes nothing.
    pub open spec fn observed(self, wall_ms: u64, now: Instant) -> RestoreClock {
        match observation(self, wall_ms, now) {
            Ok(effective) => RestoreClock { last_wall_ms: wall_ms, last_instant: now, last_effective_ms: effective, ..self },
            Err(_) => self,
        }
    }

    /// A clock that was read once, and has granted nothing.
    pub open spec fn set_at(self, wall_ms: u64, now: Instant) -> bool {
        &&& self.wf()
        &&& self.start == now && self.wall_start_ms == wall_ms
        &&& self.last_instant == now && self.last_wall_ms == wall_ms && self.last_effective_ms == wall_ms
        &&& self.limits.entries@.len() == 0 && self.activation is None
    }

    /// A clock that starts at the present wall time.
    pub fn fresh(wall_ms: u64, now: Instant) -> (r: Result<Self, Error>)
        ensures
            match r {
                Ok(clock) => wall_ms != 0 && clock.set_at(wall_ms, now),
                Err(e) => wall_ms == 0 && e == Error::ClockPrecedesSaved,
            },
    {
        Self::new(wall_ms, wall_ms, now)
    }

    pub fn new(captured_ms: u64, wall_ms: u64, start: Instant) -> (r: Result<Self, Error>)
        ensures
            match r {
                Ok(clock) => captured_ms != 0 && wall_ms >= captured_ms && clock.set_at(wall_ms, start),
                Err(e) => (captured_ms == 0 || wall_ms < captured_ms) && e == Error::ClockPrecedesSaved,
            },
    {
        if captured_ms == 0 || wall_ms < captured_ms {
            return Err(Error::ClockPrecedesSaved);
        }
        Ok(
            RestoreClock {
                start,
                wall_start_ms: wall_ms,
                last_wall_ms: wall_ms,
                last_instant: start,
                last_effective_ms: wall_ms,
                limits: Table::new(),
                activation: None,
            },
        )
    }

    /// Notes a reading of both clocks and answers the effective time.
    pub fn observe(&mut self, wall_ms: u64, now: Instant) -> (r: Result<u64, Error>)
        ensures
            r == observation(*old(self), wall_ms, now),
            *final(self) == old(self).observed(wall_ms, now),
            old(self).wf() ==> final(self).wf(),
    {
        if wall_ms < self.last_wall_ms || now.nanos < self.last_instant.nanos {
            return Err(Error::ClockRegressed);
        }
        let elapsed: u128 = now.duration_since(self.start).as_millis_up();
        if elapsed > (u64::MAX - self.wall_start_ms) as u128 {
            return Err(Error::ElapsedOverflow);
        }
        let monotonic_ms: u64 = self.wall_start_ms + elapsed as u64;
        let effective: u64 = if wall_ms >= monotonic_ms { wall_ms } else { monotonic_ms };
        if effective < self.last_effective_ms {
            return Err(Error::EffectiveClockRegressed);
        }
        self.last_wall_ms = wall_ms;
        self.last_instant = now;
        self.last_effective_ms = effective;
        Ok(effective)
    }
}

/// Time only moves forward: an observation answers no less than the one before,
/// no less than the wall clock, and no less than the time that has passed since
/// the clock started, counted up to whole milliseconds.
pub proof fn effective_time_never_returns(clock: RestoreClock, wall_ms: u64, now: Instant)
    requires
        clock.wf(),
        observation(clock, wall_ms, now) is Ok,
    ensures
        observation(clock, wall_ms, now)->Ok_0 >= clock.last_effective_ms,
        observation(clock, wall_ms, now)->Ok_0 >= wall_ms,
        observation(clock, wall_ms, now)->Ok_0 >= clock.wall_start_ms + elapsed_ms(clock, now),
{
}

/// A clock whose readings do not go back is refused for nothing but overflow.
pub proof fn forward_readings_are_taken(clock: RestoreClock, wall_ms: u64, now: Instant)
    requires
        clock.wf(),
        wall_ms >= clock.last_wall_ms,
        now.nanos >= clock.last_instant.nanos,
        clock.wall_start_ms + elapsed_ms(clock, now) <= u64::MAX,
    ensures
        observation(clock, wall_ms, now) == Ok::<u64, Error>(effective_time(clock, wall_ms, now) as u64),
{
}

/// A set of aliases with one purpose and its lifetime.
#[derive(Debug)]
pub struct Group {
    pub role: Role,
    pub provision: RelayProvision,
    /// The first sealed operation for each queue, retained across current
    /// authenticated re-admission. Never itself treated as a current grant.
    pub origins: Vec<OwnedAlias>,
    /// Original absolute role lifetime, capped by every alias lease expiry.
    pub deadline_ms: u64,
    /// Active rotation or old-alias revoke boundary; zero only for staging.
    pub action_ms: u64,
    pub receive_until_ms: u64,
}

pub struct GroupView {
    pub role: Role,
    pub provision: RelayProvisionView,
    pub origins: Seq<OwnedAliasView>,
    pub deadline_ms: u64,
    pub action_ms: u64,
    pub receive_until_ms: u64,
}

impl View for Group {
    type V = GroupView;

    open spec fn view(&self) -> GroupView {
        GroupView {
            role: self.role,
            provision: self.provision@,
            origins: views(self.origins@),
            deadline_ms: self.deadline_ms,
            action_ms: self.action_ms,
            receive_until_ms: self.receive_until_ms,
        }
    }
}

impl Clone for Group {
    fn clone(&self) -> (r: Self)
        ensures
            r@ == self@,
    {
        Group {
            role: self.role,
            provision: self.provision.clone(),
            origins: copy_aliases(&self.origins),
            deadline_ms: self.deadline_ms,
            action_ms: self.action_ms,
            receive_until_ms: self.receive_until_ms,
        }
    }
}

/// The owner's receive routes as they were at one moment.
#[derive(Debug)]
pub struct Record {
    pub captured_ms: u64,
    pub activated_ms: u64,
    pub groups: Vec<Group>,
    pub renewals: Table<[u8; 32], Vec<u8>>,
}

pub struct RecordView {
    pub captured_ms: u64,
    pub activated_ms: u64,
    pub groups: Seq<GroupView>,
    pub renewals: Map<Seq<u8>, Seq<u8>>,
}

/// A table of byte strings as a map.
pub open spec fn wires(t: Table<[u8; 32], Vec<u8>>) -> Map<Seq<u8>, Seq<u8>> {
    Map::new(|k: Seq<u8>| t.has(k), |k: Seq<u8>| t.at(k)@)
}

impl View for Record {
    type V = RecordView;

    open spec fn view(&self) -> RecordView {
        RecordView {
            captured_ms: self.captured_ms,
            activated_ms: self.activated_ms,
            groups: views(self.groups@),
            renewals: wires(self.renewals),
        }
    }
}

/// Whether a role is kept only until its queues are revoked.
pub open spec fn is_cleanup(role: Role) -> bool {
    role is Unannounced || role is Draining
}

/// Whether a group's times, path and key cannot be those of its role.
pub open spec fn lifecycle_bad(g: GroupView) -> bool {
    ||| g.provision.aliases.len() == 0
    ||| g.provision.aliases.len() > 2
    ||| g.provision.frwd_path.len() == 0
    ||| encode_utf8(g.provision.frwd_path).len() > 256
    ||| is_zero(g.provision.hop_key)
    ||| g.deadline_ms == 0
    ||| g.action_ms > g.deadline_ms
    ||| g.receive_until_ms > g.action_ms
    ||| (!is_cleanup(g.role) && g.receive_until_ms != 0)
    ||| (is_cleanup(g.role) && g.receive_until_ms == 0)
    ||| (g.role is Staged && g.action_ms != 0)
    ||| (g.role !is Staged && g.action_ms == 0)
}

/// The queue identifiers and push capabilities of a group, alternating.
pub open spec fn public_values(g: GroupView) -> Seq<[u8; 32]> {
    Seq::new(
        2 * g.provision.aliases.len(),
        |k: int| if k % 2 == 0 {
            g.provision.aliases[k / 2].contact.queue_id
        } else {
            g.provision.aliases[k / 2].contact.push_cap
        },
    )
}

pub open spec fn queue_ids(g: GroupView) -> Seq<[u8; 32]> {
    Seq::new(g.provision.aliases.len(), |k: int| g.provision.aliases[k].contact.queue_id)
}

/// The queue identifiers of the first `n` groups.
pub open spec fn ids_before(groups: Seq<GroupView>, n: nat) -> Seq<[u8; 32]>
    decreases n,
{
    if n == 0 {
        Seq::empty()
    } else {
        ids_before(groups, (n - 1) as nat) + queue_ids(groups[n - 1])
    }
}

/// A contact with another lease expiry.
pub open spec fn with_expiry(contact: AliasContact, expiry: u64) -> AliasContact {
    AliasContact { expiry, ..contact }
}

/// Whether an alias is not bound to its target, queue, capabilities, limits and
/// lease operation, or its queue was seen before, or its group outlives it.
pub open spec fn binding_bad(g: GroupView, a: OwnedAliasView, target: RelayTarget, seen: bool, p: Protocol) -> bool {
    ||| (g.role is Active && a.contact.target != target)
    ||| a.contact.target.address.port == 0
    ||| a.contact.target.address.ip.spec_unspecified()
    ||| is_zero(a.contact.target.relay_service_id)
    ||| is_zero(a.contact.queue_id)
    ||| a.contact.epoch == 0
    ||| seen
    ||| a.contact.push_cap != a.capabilities.push
    ||| is_zero(a.capabilities.push)
    ||| is_zero(a.capabilities.sub)
    ||| is_zero(a.capabilities.admin)
    ||| a.limits.max_queue_cells == 0
    ||| a.limits.max_queue_bytes == 0
    ||| a.create_path.len() == 0
    ||| encode_utf8(a.create_path).len() > 256
    ||| a.lease_create.raw_type != p.relay_sub
    ||| a.lease_create.payload.len() != p.lease_create_len
    ||| g.deadline_ms > a.contact.expiry * 1000
}

/// Why one alias of a group is refused.
pub open spec fn alias_error(
    g: GroupView,
    a: OwnedAliasView,
    origin: OwnedAliasView,
    renewal: Option<Seq<u8>>,
    target: RelayTarget,
    seen: bool,
    codec: Codec,
    p: Protocol,
) -> Option<Error> {
    let renewed = OwnedAliasView { contact: with_expiry(origin.contact, a.contact.expiry), ..origin };
    if !codec.retains(origin) || !codec.renews(renewed, renewal) {
        Some(Error::LeaseRefused)
    } else if renewed.contact != a.contact || origin.capabilities != a.capabilities || origin.limits != a.limits {
        Some(Error::OriginalAuthorityMismatch)
    } else if !codec.renews(a, renewal) {
        Some(Error::LeaseRefused)
    } else if a.contact.expiry * 1000 > u64::MAX {
        Some(Error::ExpiryOverflow)
    } else if binding_bad(g, a, target, seen, p) {
        Some(Error::InvalidBinding)
    } else if origin.contact.expiry * 1000 > u64::MAX {
        Some(Error::OriginalExpiryOverflow)
    } else if g.deadline_ms > origin.contact.expiry * 1000 {
        Some(Error::InvalidBinding)
    } else {
        None
    }
}

pub open spec fn renewal_of(renewals: Map<Seq<u8>, Seq<u8>>, queue: [u8; 32]) -> Option<Seq<u8>> {
    if renewals.dom().contains(queue@) {
        Some(renewals[queue@])
    } else {
        None
    }
}

/// The first refusal among the first `n` aliases of a group.
pub open spec fn aliases_error(
    g: GroupView,
    n: nat,
    renewals: Map<Seq<u8>, Seq<u8>>,
    target: RelayTarget,
    before: Seq<[u8; 32]>,
    codec: Codec,
    p: Protocol,
) -> Option<Error>
    decreases n,
{
    if n == 0 {
        None
    } else {
        match aliases_error(g, (n - 1) as nat, renewals, target, before, codec, p) {
            Some(e) => Some(e),
            None => {
                let a = g.provision.aliases[n - 1];
                let seen = (before + queue_ids(g).take(n - 1)).contains(a.contact.queue_id);
                alias_error(g, a, g.origins[n - 1], renewal_of(renewals, a.contact.queue_id), target, seen, codec, p)
            },
        }
    }
}

/// Why a group is refused, given the queues of the groups before it.
pub open spec fn group_error(
    g: GroupView,
    renewals: Map<Seq<u8>, Seq<u8>>,
    target: RelayTarget,
    before: Seq<[u8; 32]>,
    codec: Codec,
    p: Protocol,
) -> Option<Error> {
    if lifecycle_bad(g) {
        Some(Error::InvalidLifecycleGroup)
    } else if !is_cleanup(g.role) && g.provision.aliases.len() != 2 {
        Some(Error::InvalidAliasCount)
    } else if !distinct(public_values(g)) {
        Some(Error::CapabilitiesOverlap)
    } else if g.origins.len() != g.provision.aliases.len() {
        Some(Error::MissingOriginalOperation)
    } else {
        aliases_error(g, g.provision.aliases.len(), renewals, target, before, codec, p)
    }
}

/// The first refusal among the first `n` groups.
pub open spec fn groups_error(r: RecordView, n: nat, target: RelayTarget, codec: Codec, p: Protocol) -> Option<Error>
    decreases n,
{
    if n == 0 {
        None
    } else {
        match groups_error(r, (n - 1) as nat, target, codec, p) {
            Some(e) => Some(e),
            None => group_error(
                r.groups[n - 1],
                r.renewals,
                target,
                ids_before(r.groups, (n - 1) as nat),
                codec,
                p,
            ),
        }
    }
}

/// How many of the first `n` groups have a role.
pub open spec fn role_count(groups: Seq<GroupView>, role: Role, n: nat) -> nat
    decreases n,
{
    if n == 0 {
        0
    } else {
        role_count(groups, role, (n - 1) as nat) + (if groups[n - 1].role == role {
            1nat
        } else {
            0nat
        })
    }
}

pub open spec fn max_groups() -> nat {
    16
}

/// Why a record is refused for a target; nothing where it is in order.
pub open spec fn record_error(r: RecordView, target: RelayTarget, codec: Codec, p: Protocol) -> Option<Error> {
    if r.captured_ms == 0 || r.activated_ms > r.captured_ms || r.groups.len() == 0 || r.groups.len() > max_groups() {
        Some(Error::InvalidTimeOrGroupCount)
    } else {
        match groups_error(r, r.groups.len(), target, codec, p) {
            Some(e) => Some(e),
            None => {
                let queues = ids_before(r.groups, r.groups.len());
                if exists|k: Seq<u8>| #[trigger] r.renewals.dom().contains(k) && !views(queues).contains(k) {
                    Some(Error::OrphanRenewal)
                } else if role_count(r.groups, Role::Active, r.groups.len()) != 1 || role_count(
                    r.groups,
                    Role::Staged,
                    r.groups.len(),
                ) > 1 || role_count(r.groups, Role::Unannounced, r.groups.len()) > 1 {
                    Some(Error::InvalidRoleMultiplicity)
                } else {
                    None
                }
            },
        }
    }
}

pub open spec fn outcome(e: Option<Error>) -> Result<(), Error> {
    match e {
        Some(e) => Err(e),
        None => Ok(()),
    }
}

impl Group {
    fn lifecycle_in_order(&self) -> (r: bool)
        ensures
            r == !lifecycle_bad(self@),
    {
        let cleanup = matches!(self.role, Role::Unannounced | Role::Draining);
        let staged = matches!(self.role, Role::Staged);
        !(self.provision.aliases.len() == 0 || self.provision.aliases.len() > 2 || self.provision.frwd_path.as_str().is_empty()
            || text_len(self.provision.frwd_path.as_str()) > 256 || zero_id(&self.provision.hop_key) || self.deadline_ms == 0
            || self.action_ms > self.deadline_ms || self.receive_until_ms > self.action_ms || (!cleanup
            && self.receive_until_ms != 0) || (cleanup && self.receive_until_ms == 0) || (staged && self.action_ms != 0)
            || (!staged && self.action_ms == 0))
    }

    /// Whether a queue identifier or push capability occurs twice.
    fn values_overlap(&self) -> (r: bool)
        ensures
            r == !distinct(public_values(self@)),
    {
        let ghost all = public_values(self@);
        let mut seen: Vec<[u8; 32]> = Vec::new();
        let mut i: usize = 0;
        while i < self.provision.aliases.len()
            invariant
                i <= self.provision.aliases.len(),
                all == public_values(self@),
                seen@ == all.take(2 * i),
                distinct(seen@),
            decreases self.provision.aliases.len() - i,
        {
            let contact = self.provision.aliases[i].contact;
            assert(self@.provision.aliases[i as int].contact == contact);
            assert(all[2 * i] == contact.queue_id) by {
                assert((2 * i) % 2 == 0 && (2 * i) / 2 == i as int);
            }
            assert(all[2 * i + 1] == contact.push_cap) by {
                assert((2 * i + 1) % 2 == 1 && (2 * i + 1) / 2 == i as int);
            }
            if has_id(&seen, &contact.queue_id) {
                proof {
                    let j = choose|j: int| 0 <= j < seen@.len() && seen@[j] == contact.queue_id;
                    assert(all[j] == all[2 * i]);
                }
                return true;
            }
            seen.push(contact.queue_id);
            if has_id(&seen, &contact.push_cap) {
                proof {
                    let j = choose|j: int| 0 <= j < seen@.len() && seen@[j] == contact.push_cap;
                    assert(j < 2 * i ==> seen@[j] == all[j]);
                    assert(all[j] == all[2 * i + 1]);
                }
                return true;
            }
            seen.push(contact.push_cap);
            assert(seen@ =~= all.take(2 * (i + 1)));
            i += 1;
        }
        assert(all.take(2 * i) =~= all);
        false
    }

    fn check_alias(&self, i: usize, renewal: Option<&Vec<u8>>, target: &RelayTarget, seen: bool, codec: &Codec, p: &Protocol) -> (r: Result<(), Error>)
        requires
            i < self.provision.aliases@.len(),
            i < self.origins@.len(),
        ensures
            r == outcome(
                alias_error(
                    self@,
                    self@.provision.aliases[i as int],
                    self@.origins[i as int],
                    match renewal {
                        Some(w) => Some(w@),
                        None => None,
                    },
                    *target,
                    seen,
                    *codec,
                    *p,
                ),
            ),
    {
        let alias = &self.provision.aliases[i];
        let origin = &self.origins[i];
        if !codec.is_retained(origin) {
            return Err(Error::LeaseRefused);
        }
        let mut renewed = origin.clone();
        renewed.contact.expiry = alias.contact.expiry;
        if !codec.is_renewed(&renewed, renewal) {
            return Err(Error::LeaseRefused);
        }
        if !renewed.contact.same(&alias.contact) || !origin.capabilities.same(&alias.capabilities) || origin.limits != alias.limits {
            return Err(Error::OriginalAuthorityMismatch);
        }
        if !codec.is_renewed(alias, renewal) {
            return Err(Error::LeaseRefused);
        }
        let lease_ms: u64 = match alias.contact.expiry.checked_mul(1000) {
            Some(ms) => ms,
            None => {
                return Err(Error::ExpiryOverflow);
            },
        };
        let active = matches!(self.role, Role::Active);
        if (active && !alias.contact.target.same(target)) || alias.contact.target.address.port == 0
            || alias.contact.target.address.ip.is_unspecified() || zero_id(&alias.contact.target.relay_service_id)
            || zero_id(&alias.contact.queue_id) || alias.contact.epoch == 0 || seen || !same_id(
            &alias.contact.push_cap,
            &alias.capabilities.push,
        ) || zero_id(&alias.capabilities.push) || zero_id(&alias.capabilities.sub) || zero_id(&alias.capabilities.admin)
            || alias.limits.max_queue_cells == 0 || alias.limits.max_queue_bytes == 0 || alias.create_path.as_str().is_empty()
            || text_len(alias.create_path.as_str()) > 256 || alias.lease_create.raw_type != p.relay_sub
            || alias.lease_create.payload.len() != p.lease_create_len || self.deadline_ms > lease_ms {
            return Err(Error::InvalidBinding);
        }
        let origin_ms: u64 = match origin.contact.expiry.checked_mul(1000) {
            Some(ms) => ms,
            None => {
                return Err(Error::OriginalExpiryOverflow);
            },
        };
        if self.deadline_ms > origin_ms {
            return Err(Error::InvalidBinding);
        }
        Ok(())
    }
}

proof fn lemma_aliases_error_stays(
    g: GroupView,
    m: nat,
    n: nat,
    renewals: Map<Seq<u8>, Seq<u8>>,
    target: RelayTarget,
    before: Seq<[u8; 32]>,
    codec: Codec,
    p: Protocol,
)
    requires
        m <= n,
        aliases_error(g, m, renewals, target, before, codec, p) is Some,
    ensures
        aliases_error(g, n, renewals, target, before, codec, p) == aliases_error(g, m, renewals, target, before, codec, p),
    decreases n,
{
    if m < n {
        lemma_aliases_error_stays(g, m, (n - 1) as nat, renewals, target, before, codec, p);
    }
}

proof fn lemma_groups_error_stays(r: RecordView, m: nat, n: nat, target: RelayTarget, codec: Codec, p: Protocol)
    requires
        m <= n,
        groups_error(r, m, target, codec, p) is Some,
    ensures
        groups_error(r, n, target, codec, p) == groups_error(r, m, target, codec, p),
    decreases n,
{
    if m < n {
        lemma_groups_error_stays(r, m, (n - 1) as nat, target, codec, p);
    }
}

impl Record {
    /// The tables hold no key twice.
    pub open spec fn wf(self) -> bool {
        self.renewals.wf()
    }

    /// Checks the aliases of a group and adds their queues to those seen.
    fn check_aliases(&self, g: usize, target: &RelayTarget, queues: &mut Vec<[u8; 32]>, codec: &Codec, p: &Protocol) -> (r: Result<(), Error>)
        requires
            g < self.groups@.len(),
            self.groups@[g as int].origins@.len() == self.groups@[g as int].provision.aliases@.len(),
        ensures
            r == outcome(
                aliases_error(
                    self@.groups[g as int],
                    self@.groups[g as int].provision.aliases.len(),
                    self@.renewals,
                    *target,
                    old(queues)@,
                    *codec,
                    *p,
                ),
            ),
            r is Ok ==> final(queues)@ == old(queues)@ + queue_ids(self@.groups[g as int]),
    {
        let group = &self.groups[g];
        let ghost gv = self@.groups[g as int];
        let ghost ids = queue_ids(gv);
        let ghost n = gv.provision.aliases.len();
        let mut i: usize = 0;
        assert(queues@ =~= old(queues)@ + ids.take(0));
        while i < group.provision.aliases.len()
            invariant
                i <= group.provision.aliases.len(),
                *group == self.groups@[g as int],
                g < self.groups@.len(),
                gv == self@.groups[g as int],
                gv == group@,
                ids == queue_ids(gv),
                n == gv.provision.aliases.len(),
                group.origins@.len() == group.provision.aliases@.len(),
                queues@ == old(queues)@ + ids.take(i as int),
                aliases_error(gv, i as nat, self@.renewals, *target, old(queues)@, *codec, *p) is None,
            decreases group.provision.aliases.len() - i,
        {
            let queue = group.provision.aliases[i].contact.queue_id;
            assert(gv.provision.aliases[i as int].contact.queue_id == queue);
            let seen = has_id(queues, &queue);
            let renewal = self.renewals.get(&queue);
            assert(renewal_of(self@.renewals, queue) == (match renewal {
                Some(w) => Some(w@),
                None => None,
            }));
            match group.check_alias(i, renewal, target, seen, codec, p) {
                Ok(()) => {},
                Err(e) => {
                    proof {
                        assert(aliases_error(gv, (i + 1) as nat, self@.renewals, *target, old(queues)@, *codec, *p) == Some(e));
                        lemma_aliases_error_stays(gv, (i + 1) as nat, n, self@.renewals, *target, old(queues)@, *codec, *p);
                    }
                    return Err(e);
                },
            }
            queues.push(queue);
            assert(queues@ =~= old(queues)@ + ids.take(i + 1));
            i += 1;
        }
        assert(ids.take(i as int) =~= ids);
        Ok(())
    }

    /// Checks one group and adds its queues to those seen.
    fn check_group(&self, g: usize, target: &RelayTarget, queues: &mut Vec<[u8; 32]>, codec: &Codec, p: &Protocol) -> (r: Result<(), Error>)
        requires
            g < self.groups@.len(),
        ensures
            r == outcome(group_error(self@.groups[g as int], self@.renewals, *target, old(queues)@, *codec, *p)),
            r is Ok ==> final(queues)@ == old(queues)@ + queue_ids(self@.groups[g as int]),
    {
        let group = &self.groups[g];
        assert(self@.groups[g as int] == group@);
        if !group.lifecycle_in_order() {
            return Err(Error::InvalidLifecycleGroup);
        }
        if matches!(group.role, Role::Active | Role::Staged) && group.provision.aliases.len() != 2 {
            return Err(Error::InvalidAliasCount);
        }
        if group.values_overlap() {
            return Err(Error::CapabilitiesOverlap);
        }
        if group.origins.len() != group.provision.aliases.len() {
            return Err(Error::MissingOriginalOperation);
        }
        self.check_aliases(g, target, queues, codec, p)
    }

    /// Whether a renewal speaks of a queue that no group has.
    fn has_orphan(&self, queues: &Vec<[u8; 32]>) -> (r: bool)
        ensures
            r == (exists|k: Seq<u8>| #[trigger] self@.renewals.dom().contains(k) && !views(queues@).contains(k)),
    {
        let mut i: usize = 0;
        while i < self.renewals.entries.len()
            invariant
                i <= self.renewals.entries.len(),
                forall|j: int| 0 <= j < i ==> views(queues@).contains(#[trigger] self.renewals.keys()[j]),
            decreases self.renewals.entries.len() - i,
        {
            if !among(queues, &self.renewals.entries[i].0) {
                proof {
                    let k = self.renewals.keys()[i as int];
                    assert(self.renewals.keys().contains(k));
                    assert(self@.renewals.dom().contains(k));
                }
                return true;
            }
            i += 1;
        }
        assert forall|k: Seq<u8>| #[trigger] self@.renewals.dom().contains(k) implies views(queues@).contains(k) by {
            assert(self.renewals.keys().contains(k));
        }
        false
    }

    /// Validates the record's structure. This is no proof of relay admission;
    /// the authenticated restore operation remains mandatory.
    pub fn validate(&self, target: &RelayTarget, codec: &Codec, p: &Protocol) -> (r: Result<(), Error>)
        ensures
            r == outcome(record_error(self@, *target, *codec, *p)),
    {
        if self.captured_ms == 0 || self.activated_ms > self.captured_ms || self.groups.len() == 0 || self.groups.len() > 16 {
            return Err(Error::InvalidTimeOrGroupCount);
        }
        let ghost rv = self@;
        let mut queues: Vec<[u8; 32]> = Vec::new();
        let mut active: usize = 0;
        let mut staged: usize = 0;
        let mut unannounced: usize = 0;
        let mut i: usize = 0;
        while i < self.groups.len()
            invariant
                i <= self.groups.len(),
                rv == self@,
                self.captured_ms != 0,
                self.activated_ms <= self.captured_ms,
                0 < self.groups.len() <= 16,
                queues@ == ids_before(rv.groups, i as nat),
                groups_error(rv, i as nat, *target, *codec, *p) is None,
                active == role_count(rv.groups, Role::Active, i as nat),
                staged == role_count(rv.groups, Role::Staged, i as nat),
                unannounced == role_count(rv.groups, Role::Unannounced, i as nat),
                active <= i,
                staged <= i,
                unannounced <= i,
            decreases self.groups.len() - i,
        {
            assert(rv.groups[i as int].role == self.groups@[i as int].role);
            match self.groups[i].role {
                Role::Active => {
                    active += 1;
                },
                Role::Staged => {
                    staged += 1;
                },
                Role::Unannounced => {
                    unannounced += 1;
                },
                Role::Draining => {},
            }
            match self.check_group(i, target, &mut queues, codec, p) {
                Ok(()) => {},
                Err(e) => {
                    proof {
                        assert(groups_error(rv, (i + 1) as nat, *target, *codec, *p) == Some(e));
                        lemma_groups_error_stays(rv, (i + 1) as nat, rv.groups.len(), *target, *codec, *p);
                    }
                    return Err(e);
                },
            }
            i += 1;
        }
        if self.has_orphan(&queues) {
            return Err(Error::OrphanRenewal);
        }
        if active != 1 || staged > 1 || unannounced > 1 {
            return Err(Error::InvalidRoleMultiplicity);
        }
        Ok(())
    }

    /// How long the active group has been active.
    pub fn active_age(&self, effective_ms: u64) -> (r: Result<Duration, Error>)
        ensures
            match r {
                Ok(age) => effective_ms >= self.activated_ms && age.nanos == (effective_ms - self.activated_ms) * 1_000_000,
                Err(e) => effective_ms < self.activated_ms && e == Error::ActivationInFuture,
            },
    {
        if effective_ms < self.activated_ms {
            return Err(Error::ActivationInFuture);
        }
        Ok(Duration::from_millis(effective_ms - self.activated_ms))
    }

    /// Whether a group may be restored. A due cleanup role is not permission to
    /// recreate its receive queue.
    pub fn may_restore(group: &Group, effective_ms: u64) -> (r: Result<bool, Error>)
        ensures
            r == restorable(group@, effective_ms),
    {
        if effective_ms >= group.deadline_ms {
            if matches!(group.role, Role::Active) {
                return Err(Error::ActiveAliasExpired);
            }
            return Ok(false);
        }
        Ok(!matches!(group.role, Role::Unannounced | Role::Draining) || effective_ms < group.receive_until_ms)
    }

    /// The relay of the active group's first alias.
    pub fn active_target(&self) -> (r: Result<RelayTarget, Error>)
        ensures
            match r {
                Ok(target) => spec_active_target(self@.groups, self@.groups.len()) == Some(target),
                Err(e) => spec_active_target(self@.groups, self@.groups.len()) is None && e == Error::MissingActiveAliases,
            },
    {
        let ghost gs = self@.groups;
        let mut i: usize = 0;
        while i < self.groups.len()
            invariant
                i <= self.groups.len(),
                gs == self@.groups,
                first_active(gs, i as nat) == i,
            decreases self.groups.len() - i,
        {
            assert(gs[i as int] == self.groups@[i as int]@);
            if matches!(self.groups[i].role, Role::Active) {
                proof {
                    lemma_first_active(gs, i as int, gs.len());
                }
                if self.groups[i].provision.aliases.len() == 0 {
                    return Err(Error::MissingActiveAliases);
                }
                assert(gs[i as int].provision.aliases[0].contact == self.groups@[i as int].provision.aliases@[0].contact);
                return Ok(self.groups[i].provision.aliases[0].contact.target);
            }
            i += 1;
        }
        Err(Error::MissingActiveAliases)
    }

    /// Whether the record can be taken up at an effective time.
    pub fn validate_live(&self, effective_ms: u64) -> (r: Result<(), Error>)
        ensures
            r == outcome(live_error(self@, effective_ms)),
    {
        if effective_ms < self.captured_ms {
            return Err(Error::ClockPrecedesCaptured);
        }
        let mut i: usize = 0;
        while i < self.groups.len()
            invariant
                i <= self.groups.len(),
                effective_ms >= self.captured_ms,
                forall|j: int| 0 <= j < i ==> !(restorable(#[trigger] self@.groups[j], effective_ms) is Err),
            decreases self.groups.len() - i,
        {
            assert(self@.groups[i as int] == self.groups@[i as int]@);
            match Self::may_restore(&self.groups[i], effective_ms) {
                Ok(_) => {},
                Err(e) => {
                    return Err(e);
                },
            }
            i += 1;
        }
        Ok(())
    }
}

/// Whether a group may be restored at an effective time.
pub open spec fn restorable(g: GroupView, effective_ms: u64) -> Result<bool, Error> {
    if effective_ms >= g.deadline_ms {
        if g.role is Active {
            Err(Error::ActiveAliasExpired)
        } else {
            Ok(false)
        }
    } else {
        Ok(!is_cleanup(g.role) || effective_ms < g.receive_until_ms)
    }
}

/// The place of the first active group among the first `n`, or `n`.
pub open spec fn first_active(groups: Seq<GroupView>, n: nat) -> int
    decreases n,
{
    if n == 0 {
        0
    } else {
        let i = first_active(groups, (n - 1) as nat);
        if i < n - 1 {
            i
        } else if groups[n - 1].role is Active {
            n - 1
        } else {
            n as int
        }
    }
}

proof fn lemma_first_active(groups: Seq<GroupView>, i: int, n: nat)
    requires
        0 <= i < n,
        first_active(groups, i as nat) == i,
        groups[i].role is Active,
    ensures
        first_active(groups, n) == i,
    decreases n,
{
    if i < n - 1 {
        lemma_first_active(groups, i, (n - 1) as nat);
    }
}

pub open spec fn spec_active_target(groups: Seq<GroupView>, n: nat) -> Option<RelayTarget> {
    let i = first_active(groups, n);
    if i < n && groups[i].provision.aliases.len() > 0 {
        Some(groups[i].provision.aliases[0].contact.target)
    } else {
        None
    }
}

/// Why a record cannot be taken up at an effective time.
pub open spec fn live_error(r: RecordView, effective_ms: u64) -> Option<Error> {
    if effective_ms < r.captured_ms {
        Some(Error::ClockPrecedesCaptured)
    } else if exists|i: int| 0 <= i < r.groups.len() && restorable(#[trigger] r.groups[i], effective_ms) is Err {
        Some(Error::ActiveAliasExpired)
    } else {
        None
    }
}

pub open spec fn min_of(a: u64, b: u64) -> u64 {
    if a <= b {
        a
    } else {
        b
    }
}

pub fn min64(a: u64, b: u64) -> (r: u64)
    ensures
        r == min_of(a, b),
{
    if a <= b {
        a
    } else {
        b
    }
}

/// A group held to the budget of one of its queues.
pub open spec fn held_to(g: GroupView, limit: Option<Limit>) -> GroupView {
    match limit {
        None => g,
        Some(l) => GroupView {
            deadline_ms: min_of(g.deadline_ms, l.deadline_ms),
            action_ms: if g.role is Active && l.role is Active {
                min_of(g.action_ms, l.action_ms)
            } else {
                g.action_ms
            },
            receive_until_ms: if is_cleanup(g.role) && is_cleanup(l.role) {
                min_of(g.receive_until_ms, l.receive_until_ms)
            } else {
                g.receive_until_ms
            },
            ..g
        },
    }
}

/// A group held to the budgets of its first `n` queues.
pub open spec fn held(g: GroupView, limits: Table<[u8; 32], Limit>, n: nat) -> GroupView
    decreases n,
{
    if n == 0 {
        g
    } else {
        held_to(held(g, limits, (n - 1) as nat), limits.lookup(g.provision.aliases[n - 1].contact.queue_id@))
    }
}

/// A group whose action comes no later than its deadline and whose reception
/// ends no later than its action.
pub open spec fn nested(g: GroupView) -> GroupView {
    let action_ms = min_of(g.action_ms, g.deadline_ms);
    GroupView { action_ms, receive_until_ms: min_of(g.receive_until_ms, action_ms), ..g }
}

/// A group within every budget once granted to its queues.
pub open spec fn limited(g: GroupView, limits: Table<[u8; 32], Limit>) -> GroupView {
    nested(held(g, limits, g.provision.aliases.len()))
}

/// The queues of the first active group.
pub open spec fn active_queues(groups: Seq<GroupView>) -> Seq<[u8; 32]> {
    let i = first_active(groups, groups.len());
    if i < groups.len() {
        queue_ids(groups[i])
    } else {
        Seq::empty()
    }
}

/// When the active queues were activated: no later than once noted of them.
pub open spec fn limited_activation(r: RecordView, activation: Option<(Vec<[u8; 32]>, u64)>) -> u64 {
    match activation {
        Some((ids, at)) => if ids@ == active_queues(r.groups) {
            min_of(r.activated_ms, at)
        } else {
            r.activated_ms
        },
        None => r.activated_ms,
    }
}

/// A record within every budget that a clock has noted.
pub open spec fn limited_record(r: RecordView, clock: RestoreClock) -> RecordView {
    RecordView {
        activated_ms: limited_activation(r, clock.activation),
        groups: Seq::new(r.groups.len(), |i: int| limited(r.groups[i], clock.limits)),
        ..r
    }
}

pub open spec fn limit_of(g: GroupView) -> Limit {
    Limit {
        role: g.role,
        deadline_ms: g.deadline_ms,
        action_ms: g.action_ms,
        receive_until_ms: g.receive_until_ms,
    }
}

/// The budget of a queue in the last of the first `n` groups that has it.
pub open spec fn limit_in(groups: Seq<GroupView>, n: nat, queue: Seq<u8>) -> Option<Limit>
    decreases n,
{
    if n == 0 {
        None
    } else if views(queue_ids(groups[n - 1])).contains(queue) {
        Some(limit_of(groups[n - 1]))
    } else {
        limit_in(groups, (n - 1) as nat, queue)
    }
}

/// What a clock notes of a record.
pub open spec fn notes_budget(clock: RestoreClock, r: RecordView) -> bool {
    &&& clock.limits.wf()
    &&& forall|k: Seq<u8>| #[trigger] clock.limits.lookup(k) == limit_in(r.groups, r.groups.len(), k)
    &&& clock.activation matches Some((ids, at)) && ids@ == active_queues(r.groups) && at == r.activated_ms
}

fn queues_of(aliases: &Vec<OwnedAlias>) -> (r: Vec<[u8; 32]>)
    ensures
        r@ == Seq::new(aliases@.len(), |k: int| aliases@[k].contact.queue_id),
{
    let mut out: Vec<[u8; 32]> = Vec::new();
    let mut i: usize = 0;
    while i < aliases.len()
        invariant
            i <= aliases.len(),
            out@ == Seq::new(i as nat, |k: int| aliases@[k].contact.queue_id),
        decreases aliases.len() - i,
    {
        out.push(aliases[i].contact.queue_id);
        i += 1;
        assert(out@ =~= Seq::new(i as nat, |k: int| aliases@[k].contact.queue_id));
    }
    out
}

fn same_ids(a: &Vec<[u8; 32]>, b: &Vec<[u8; 32]>) -> (r: bool)
    ensures
        r == (a@ == b@),
{
    if a.len() != b.len() {
        return false;
    }
    let mut i: usize = 0;
    while i < a.len()
        invariant
            i <= a.len(),
            a.len() == b.len(),
            forall|j: int| 0 <= j < i ==> a@[j] == b@[j],
        decreases a.len() - i,
    {
        if !same_id(&a[i], &b[i]) {
            return false;
        }
        i += 1;
    }
    assert(a@ =~= b@);
    true
}

impl Record {
    fn active_place(&self) -> (r: usize)
        ensures
            r == first_active(self@.groups, self@.groups.len()),
            r <= self.groups@.len(),
    {
        let ghost gs = self@.groups;
        let mut i: usize = 0;
        while i < self.groups.len()
            invariant
                i <= self.groups.len(),
                gs == self@.groups,
                first_active(gs, i as nat) == i,
            decreases self.groups.len() - i,
        {
            assert(gs[i as int] == self.groups@[i as int]@);
            if matches!(self.groups[i].role, Role::Active) {
                proof {
                    lemma_first_active(gs, i as int, gs.len());
                }
                return i;
            }
            i += 1;
        }
        i
    }

    fn active_queue_ids(&self) -> (r: Vec<[u8; 32]>)
        ensures
            r@ == active_queues(self@.groups),
    {
        let i: usize = self.active_place();
        if i < self.groups.len() {
            let r = queues_of(&self.groups[i].provision.aliases);
            assert(self@.groups[i as int] == self.groups@[i as int]@);
            assert(r@ =~= queue_ids(self@.groups[i as int]));
            r
        } else {
            Vec::new()
        }
    }
}

impl Group {
    /// Holds the group to the budgets of a table.
    fn limit(&mut self, limits: &Table<[u8; 32], Limit>)
        ensures
            final(self)@ == limited(old(self)@, *limits),
            final(self).provision == old(self).provision,
            final(self).origins == old(self).origins,
    {
        let ghost g = self@;
        let mut i: usize = 0;
        while i < self.provision.aliases.len()
            invariant
                i <= self.provision.aliases.len(),
                self.provision == old(self).provision,
                self.origins == old(self).origins,
                g == old(self)@,
                self@ == held(g, *limits, i as nat),
            decreases self.provision.aliases.len() - i,
        {
            let queue = self.provision.aliases[i].contact.queue_id;
            assert(g.provision.aliases[i as int].contact.queue_id == queue);
            match limits.get(&queue) {
                Some(l) => {
                    self.deadline_ms = min64(self.deadline_ms, l.deadline_ms);
                    if matches!(self.role, Role::Active) && matches!(l.role, Role::Active) {
                        self.action_ms = min64(self.action_ms, l.action_ms);
                    }
                    if matches!(self.role, Role::Unannounced | Role::Draining) && matches!(l.role, Role::Unannounced | Role::Draining) {
                        self.receive_until_ms = min64(self.receive_until_ms, l.receive_until_ms);
                    }
                },
                None => {},
            }
            i += 1;
        }
        assert(g.provision.aliases.len() == self.provision.aliases@.len());
        self.action_ms = min64(self.action_ms, self.deadline_ms);
        self.receive_until_ms = min64(self.receive_until_ms, self.action_ms);
    }
}

/// The budgets of a record's queues.
fn limits_of(groups: &Vec<Group>) -> (r: Table<[u8; 32], Limit>)
    ensures
        r.wf(),
        forall|k: Seq<u8>| #[trigger] r.lookup(k) == limit_in(views(groups@), groups@.len(), k),
{
    let ghost gs = views(groups@);
    let mut t: Table<[u8; 32], Limit> = Table::new();
    let mut i: usize = 0;
    while i < groups.len()
        invariant
            i <= groups.len(),
            gs == views(groups@),
            t.wf(),
            forall|k: Seq<u8>| #[trigger] t.lookup(k) == limit_in(gs, i as nat, k),
        decreases groups.len() - i,
    {
        let g = &groups[i];
        let ghost gv = gs[i as int];
        assert(gv == g@);
        let limit = Limit {
            role: g.role,
            deadline_ms: g.deadline_ms,
            action_ms: g.action_ms,
            receive_until_ms: g.receive_until_ms,
        };
        let ghost ids = views(queue_ids(gv));
        let mut j: usize = 0;
        while j < g.provision.aliases.len()
            invariant
                j <= g.provision.aliases.len(),
                i < groups.len(),
                gs == views(groups@),
                *g == groups@[i as int],
                gv == g@,
                gv == gs[i as int],
                ids == views(queue_ids(gv)),
                limit == limit_of(gv),
                t.wf(),
                forall|k: Seq<u8>|
                    #[trigger] t.lookup(k) == (if ids.take(j as int).contains(k) {
                        Some(limit)
                    } else {
                        limit_in(gs, i as nat, k)
                    }),
            decreases g.provision.aliases.len() - j,
        {
            let queue = g.provision.aliases[j].contact.queue_id;
            let ghost before = t;
            let _ = t.insert(queue, limit);
            proof {
                assert(ids[j as int] == queue@);
                assert forall|k: Seq<u8>|
                    #[trigger] t.lookup(k) == (if ids.take(j + 1).contains(k) {
                        Some(limit)
                    } else {
                        limit_in(gs, i as nat, k)
                    }) by {
                    assert(ids.take(j + 1) =~= ids.take(j as int).push(queue@));
                    if k == queue@ {
                        assert(ids.take(j + 1)[j as int] == k);
                    } else {
                        assert(t.lookup(k) == before.lookup(k));
                        if ids.take(j as int).contains(k) {
                            let x = ids.take(j as int).index_of(k);
                            assert(ids.take(j + 1)[x] == k);
                        }
                        if ids.take(j + 1).contains(k) {
                            let x = ids.take(j + 1).index_of(k);
                            assert(ids.take(j as int)[x] == k);
                        }
                    }
                }
            }
            j += 1;
        }
        assert(ids.take(j as int) =~= ids);
        i += 1;
    }
    t
}

impl RestoreClock {
    /// Holds a record to every budget noted before, and notes the result.
    pub fn retain_limits(&mut self, record: &mut Record)
        ensures
            final(record)@ == limited_record(old(record)@, *old(self)),
            final(record).renewals == old(record).renewals,
            notes_budget(*final(self), final(record)@),
            final(self).start == old(self).start,
            final(self).wall_start_ms == old(self).wall_start_ms,
            final(self).last_wall_ms == old(self).last_wall_ms,
            final(self).last_instant == old(self).last_instant,
            final(self).last_effective_ms == old(self).last_effective_ms,
            old(self).wf() ==> final(self).wf(),
    {
        let ghost rv = record@;
        let active = record.active_queue_ids();
        match &self.activation {
            Some((ids, at)) => {
                if same_ids(ids, &active) {
                    record.activated_ms = min64(record.activated_ms, *at);
                }
            },
            None => {},
        }
        let ghost gs = views(old(record).groups@);
        let mut i: usize = 0;
        while i < record.groups.len()
            invariant
                i <= record.groups.len(),
                record.groups@.len() == gs.len(),
                record.captured_ms == rv.captured_ms,
                record.activated_ms == limited_activation(rv, self.activation),
                record.renewals == old(record).renewals,
                gs == rv.groups,
                forall|j: int| 0 <= j < i ==> (#[trigger] record.groups@[j])@ == limited(gs[j], self.limits),
                forall|j: int| i <= j < gs.len() ==> (#[trigger] record.groups@[j])@ == gs[j],
            decreases record.groups.len() - i,
        {
            let mut g = record.groups.remove(i);
            g.limit(&self.limits);
            record.groups.insert(i, g);
            i += 1;
        }
        let ghost after = limited_record(rv, *self);
        assert(record@.groups =~= after.groups);
        assert(record@ == after);
        proof {
            lemma_limits_keep_queues(rv.groups, self.limits);
        }
        let at: u64 = record.activated_ms;
        let limits = limits_of(&record.groups);
        self.activation = Some((active, at));
        self.limits = limits;
    }
}

proof fn lemma_held_keeps(g: GroupView, limits: Table<[u8; 32], Limit>, n: nat)
    ensures
        held(g, limits, n).role == g.role,
        held(g, limits, n).provision == g.provision,
        held(g, limits, n).origins == g.origins,
        held(g, limits, n).deadline_ms <= g.deadline_ms,
        held(g, limits, n).action_ms <= g.action_ms,
        held(g, limits, n).receive_until_ms <= g.receive_until_ms,
    decreases n,
{
    if n > 0 {
        lemma_held_keeps(g, limits, (n - 1) as nat);
    }
}

proof fn lemma_limits_keep_queues(groups: Seq<GroupView>, limits: Table<[u8; 32], Limit>)
    ensures
        active_queues(Seq::new(groups.len(), |i: int| limited(groups[i], limits))) == active_queues(groups),
{
    let after = Seq::new(groups.len(), |i: int| limited(groups[i], limits));
    assert forall|i: int| 0 <= i < groups.len() implies (#[trigger] after[i]).role == groups[i].role && after[i].provision
        == groups[i].provision by {
        lemma_held_keeps(groups[i], limits, groups[i].provision.aliases.len());
    }
    lemma_first_active_same(groups, after, groups.len());
    let i = first_active(groups, groups.len());
    lemma_first_active_in(groups, groups.len());
    if i < groups.len() {
        assert(after[i].provision == groups[i].provision);
    }
}

proof fn lemma_first_active_in(groups: Seq<GroupView>, n: nat)
    ensures
        0 <= first_active(groups, n) <= n,
    decreases n,
{
    if n > 0 {
        lemma_first_active_in(groups, (n - 1) as nat);
    }
}

proof fn lemma_first_active_same(a: Seq<GroupView>, b: Seq<GroupView>, n: nat)
    requires
        n <= a.len(),
        a.len() == b.len(),
        forall|i: int| 0 <= i < n ==> (#[trigger] a[i]).role == b[i].role,
    ensures
        first_active(a, n) == first_active(b, n),
    decreases n,
{
    if n > 0 {
        lemma_first_active_same(a, b, (n - 1) as nat);
        assert(a[n - 1].role == b[n - 1].role);
    }
}

/// Restoring never replenishes: a group that is held to noted budgets keeps its
/// role, its aliases and its original operations, gets no later deadline, action
/// or end of reception than it asks for, and no later deadline than any that was
/// noted of one of its queues.
pub proof fn budgets_only_shrink(g: GroupView, limits: Table<[u8; 32], Limit>, i: int)
    requires
        0 <= i < g.provision.aliases.len(),
    ensures
        limited(g, limits).role == g.role,
        limited(g, limits).provision == g.provision,
        limited(g, limits).origins == g.origins,
        limited(g, limits).deadline_ms <= g.deadline_ms,
        limited(g, limits).action_ms <= g.action_ms,
        limited(g, limits).receive_until_ms <= g.receive_until_ms,
        limited(g, limits).action_ms <= limited(g, limits).deadline_ms,
        limited(g, limits).receive_until_ms <= limited(g, limits).action_ms,
        limits.lookup(g.provision.aliases[i].contact.queue_id@) matches Some(l) ==> {
            &&& limited(g, limits).deadline_ms <= l.deadline_ms
            &&& (g.role is Active && l.role is Active ==> limited(g, limits).action_ms <= l.action_ms)
            &&& (is_cleanup(g.role) && is_cleanup(l.role) ==> limited(g, limits).receive_until_ms <= l.receive_until_ms)
        },
{
    let n = g.provision.aliases.len();
    lemma_held_keeps(g, limits, n);
    lemma_held_bound(g, limits, n, i);
}

proof fn lemma_held_bound(g: GroupView, limits: Table<[u8; 32], Limit>, n: nat, i: int)
    requires
        0 <= i < n,
    ensures
        limits.lookup(g.provision.aliases[i].contact.queue_id@) matches Some(l) ==> {
            &&& held(g, limits, n).deadline_ms <= l.deadline_ms
            &&& (g.role is Active && l.role is Active ==> held(g, limits, n).action_ms <= l.action_ms)
            &&& (is_cleanup(g.role) && is_cleanup(l.role) ==> held(g, limits, n).receive_until_ms <= l.receive_until_ms)
        },
    decreases n,
{
    lemma_held_keeps(g, limits, (n - 1) as nat);
    if i < n - 1 {
        lemma_held_bound(g, limits, (n - 1) as nat, i);
    }
}

} // verus!
