//! The owner's live receive routes, and their passage into and out of a record.

use vstd::prelude::*;
use crate::bytes::copy_bytes;
use crate::codec::{Codec, NodeKeys, Protocol};
use crate::error::Error;
use crate::model::{contacts, copy_aliases, views, AliasContact, OwnedAlias, OwnedAliasView, RelayProvision, RelayProvisionView, RelayTarget};
use crate::owner_aliases::{ids_before, is_cleanup, limit_in, limited_record, live_error, min64, min_of, nested, notes_budget, observation, outcome, queue_ids, spec_active_target, wires, Group, GroupView, Record, RecordView, RestoreClock, Role};
use crate::owner_record::{seal, seals_record};
use crate::profile::AliasLifecycleConfig;
use crate::table::{among, lemma_place, lemma_place_is, place, Table};
use crate::time::{ms_up, Duration, Instant};

verus! {

/// Aliases that are no longer announced and wait for revocation.
#[derive(Debug)]
pub struct DrainingContactAliases {
    pub aliases: Vec<OwnedAlias>,
    pub receive_until: Instant,
    pub next_revoke: Instant,
    pub abandon_at: Instant,
}

pub struct DrainingView {
    pub aliases: Seq<OwnedAliasView>,
    pub receive_until: Instant,
    pub next_revoke: Instant,
    pub abandon_at: Instant,
}

impl View for DrainingContactAliases {
    type V = DrainingView;

    open spec fn view(&self) -> DrainingView {
        DrainingView {
            aliases: views(self.aliases@),
            receive_until: self.receive_until,
            next_revoke: self.next_revoke,
            abandon_at: self.abandon_at,
        }
    }
}

/// The owner's receive routes.
#[derive(Debug)]
pub struct OwnerState {
    /// The relay in use; its aliases are the active ones.
    pub client_relay: RelayProvision,
    pub staged_contact_aliases: Option<Vec<OwnedAlias>>,
    pub unannounced_old_contact_aliases: Option<Vec<OwnedAlias>>,
    /// When reception on unannounced aliases ends, and when they are given up.
    pub unannounced_contact_deadlines: Option<(Instant, Instant)>,
    pub draining_contact_aliases: Vec<DrainingContactAliases>,
    pub owner_alias_origins: Table<[u8; 32], OwnedAlias>,
    pub owner_alias_renewals: Table<[u8; 32], Vec<u8>>,
    pub contact_aliases_activated: Instant,
    pub alias_lifecycle_timing: AliasLifecycleConfig,
    pub owner_clock: RestoreClock,
    /// The contacts on the node's public card.
    pub public_aliases: Vec<AliasContact>,
    /// Whether a routing runtime finds relays for this node.
    pub routed: bool,
}

/// The least lease expiry of the first `n` aliases, in milliseconds.
pub open spec fn least_expiry(aliases: Seq<OwnedAliasView>, n: nat) -> int
    decreases n,
{
    if n <= 1 {
        aliases[0].contact.expiry * 1000
    } else {
        let least = least_expiry(aliases, (n - 1) as nat);
        let last = aliases[n - 1].contact.expiry * 1000;
        if last < least {
            last
        } else {
            least
        }
    }
}

/// When the first lease of a set of aliases ends.
pub open spec fn expiry_of(aliases: Seq<OwnedAliasView>) -> Result<u64, Error> {
    if exists|i: int| 0 <= i < aliases.len() && (#[trigger] aliases[i]).contact.expiry * 1000 > u64::MAX {
        Err(Error::ExpiryOverflow)
    } else if aliases.len() == 0 {
        Err(Error::AliasSetEmpty)
    } else {
        Ok(least_expiry(aliases, aliases.len()) as u64)
    }
}

pub fn alias_expiry(aliases: &Vec<OwnedAlias>) -> (r: Result<u64, Error>)
    ensures
        r == expiry_of(views(aliases@)),
{
    let ghost vs = views(aliases@);
    let mut least: u64 = 0;
    let mut i: usize = 0;
    while i < aliases.len()
        invariant
            i <= aliases.len(),
            vs == views(aliases@),
            forall|j: int| 0 <= j < i ==> (#[trigger] vs[j]).contact.expiry * 1000 <= u64::MAX,
            i > 0 ==> least as int == least_expiry(vs, i as nat),
        decreases aliases.len() - i,
    {
        assert(vs[i as int].contact.expiry == aliases@[i as int].contact.expiry);
        let ms: u64 = match aliases[i].contact.expiry.checked_mul(1000) {
            Some(ms) => ms,
            None => {
                return Err(Error::ExpiryOverflow);
            },
        };
        if i == 0 || ms < least {
            least = ms;
        }
        i += 1;
    }
    if aliases.len() == 0 {
        return Err(Error::AliasSetEmpty);
    }
    Ok(least)
}

/// A monotonic moment in effective milliseconds, given the effective time now.
/// What lies ahead is rounded down, what has passed is rounded up.
pub open spec fn absolute_time(deadline: Instant, now: Instant, effective_ms: u64) -> Result<u64, Error> {
    if deadline.nanos >= now.nanos {
        let ahead = effective_ms + (deadline.nanos - now.nanos) / 1_000_000;
        if ahead > u64::MAX {
            Err(Error::DeadlineOverflow)
        } else {
            Ok(ahead as u64)
        }
    } else {
        let passed = ms_up((now.nanos - deadline.nanos) as nat);
        if passed > u64::MAX {
            Err(Error::AgeOverflow)
        } else if passed > effective_ms {
            Err(Error::AgeUnrelated)
        } else {
            Ok((effective_ms - passed) as u64)
        }
    }
}

pub fn absolute(deadline: Instant, now: Instant, effective_ms: u64) -> (r: Result<u64, Error>)
    ensures
        r == absolute_time(deadline, now, effective_ms),
{
    if deadline.nanos >= now.nanos {
        let remaining: u128 = deadline.duration_since(now).as_millis();
        if remaining > (u64::MAX - effective_ms) as u128 {
            return Err(Error::DeadlineOverflow);
        }
        Ok(effective_ms + remaining as u64)
    } else {
        let elapsed: u128 = now.duration_since(deadline).as_millis_up();
        if elapsed > u64::MAX as u128 {
            return Err(Error::AgeOverflow);
        }
        if elapsed as u64 > effective_ms {
            return Err(Error::AgeUnrelated);
        }
        Ok(effective_ms - elapsed as u64)
    }
}

/// The original operation of each alias, or the alias itself where none is kept.
pub open spec fn origins_of(aliases: Seq<OwnedAliasView>, origins: Table<[u8; 32], OwnedAlias>) -> Seq<OwnedAliasView> {
    Seq::new(
        aliases.len(),
        |i: int| match origins.lookup(aliases[i].contact.queue_id@) {
            Some(o) => o@,
            None => aliases[i],
        },
    )
}

/// What a relay grants with other aliases.
pub open spec fn provision_with(relay: RelayProvisionView, aliases: Seq<OwnedAliasView>) -> RelayProvisionView {
    RelayProvisionView { aliases, ..relay }
}

pub open spec fn capped(r: Result<u64, Error>, cap: u64) -> Result<u64, Error> {
    match r {
        Ok(x) => Ok(min_of(x, cap)),
        Err(e) => Err(e),
    }
}

/// The group of the active aliases at a moment.
pub open spec fn active_group(st: OwnerState, now: Instant, captured_ms: u64) -> Result<GroupView, Error> {
    let aliases = views(st.client_relay.aliases@);
    match expiry_of(aliases) {
        Err(e) => Err(e),
        Ok(expiry) => {
            let rotation = st.contact_aliases_activated.nanos + st.alias_lifecycle_timing.alias_ttl.nanos;
            if rotation > u128::MAX {
                Err(Error::RotationOverflow)
            } else {
                match capped(absolute_time(Instant { nanos: rotation as u128 }, now, captured_ms), expiry) {
                    Err(e) => Err(e),
                    Ok(action_ms) => Ok(
                        GroupView {
                            role: Role::Active,
                            provision: st.client_relay@,
                            origins: origins_of(aliases, st.owner_alias_origins),
                            deadline_ms: expiry,
                            action_ms,
                            receive_until_ms: 0,
                        },
                    ),
                }
            }
        },
    }
}

/// The group of the staged aliases, where there are any.
pub open spec fn staged_group(st: OwnerState) -> Result<Option<GroupView>, Error> {
    match st.staged_contact_aliases {
        None => Ok(None),
        Some(staged) => match expiry_of(views(staged@)) {
            Err(e) => Err(e),
            Ok(deadline_ms) => Ok(
                Some(
                    GroupView {
                        role: Role::Staged,
                        provision: provision_with(st.client_relay@, views(staged@)),
                        origins: origins_of(views(staged@), st.owner_alias_origins),
                        deadline_ms,
                        action_ms: 0,
                        receive_until_ms: 0,
                    },
                ),
            ),
        },
    }
}

/// The group of old aliases whose replacement is not announced yet.
pub open spec fn unannounced_group(st: OwnerState, now: Instant, captured_ms: u64) -> Result<Option<GroupView>, Error> {
    match st.unannounced_old_contact_aliases {
        None => if st.unannounced_contact_deadlines is Some {
            Err(Error::OrphanAnnouncementDeadlines)
        } else {
            Ok(None)
        },
        Some(old_aliases) => match st.unannounced_contact_deadlines {
            None => Err(Error::MissingAnnouncementDeadlines),
            Some((receive_until, abandon_at)) => match expiry_of(views(old_aliases@)) {
                Err(e) => Err(e),
                Ok(expiry) => match (
                    capped(absolute_time(abandon_at, now, captured_ms), expiry),
                    capped(absolute_time(receive_until, now, captured_ms), expiry),
                ) {
                    (Err(e), _) => Err(e),
                    (Ok(_), Err(e)) => Err(e),
                    (Ok(deadline_ms), Ok(received)) => Ok(
                        Some(
                            GroupView {
                                role: Role::Unannounced,
                                provision: provision_with(st.client_relay@, views(old_aliases@)),
                                origins: origins_of(views(old_aliases@), st.owner_alias_origins),
                                deadline_ms,
                                action_ms: received,
                                receive_until_ms: received,
                            },
                        ),
                    ),
                },
            },
        },
    }
}

/// The group of one set of draining aliases.
pub open spec fn draining_group(st: OwnerState, d: DrainingView, now: Instant, captured_ms: u64) -> Result<GroupView, Error> {
    match expiry_of(d.aliases) {
        Err(e) => Err(e),
        Ok(expiry) => match capped(absolute_time(d.abandon_at, now, captured_ms), expiry) {
            Err(e) => Err(e),
            Ok(deadline_ms) => match (
                capped(absolute_time(d.next_revoke, now, captured_ms), deadline_ms),
                capped(absolute_time(d.receive_until, now, captured_ms), deadline_ms),
            ) {
                (Err(e), _) => Err(e),
                (Ok(_), Err(e)) => Err(e),
                (Ok(action_ms), Ok(receive_until_ms)) => Ok(
                    GroupView {
                        role: Role::Draining,
                        provision: provision_with(st.client_relay@, d.aliases),
                        origins: origins_of(d.aliases, st.owner_alias_origins),
                        deadline_ms,
                        action_ms,
                        receive_until_ms,
                    },
                ),
            },
        },
    }
}

/// The groups of the first `n` sets of draining aliases; empty sets have none.
pub open spec fn draining_groups(st: OwnerState, n: nat, now: Instant, captured_ms: u64) -> Result<Seq<GroupView>, Error>
    decreases n,
{
    if n == 0 {
        Ok(Seq::empty())
    } else {
        match draining_groups(st, (n - 1) as nat, now, captured_ms) {
            Err(e) => Err(e),
            Ok(groups) => {
                let d = st.draining_contact_aliases@[n - 1]@;
                if d.aliases.len() == 0 {
                    Ok(groups)
                } else {
                    match draining_group(st, d, now, captured_ms) {
                        Err(e) => Err(e),
                        Ok(g) => Ok(groups.push(g)),
                    }
                }
            },
        }
    }
}

pub open spec fn pushed(s: Seq<GroupView>, g: Option<GroupView>) -> Seq<GroupView> {
    match g {
        Some(g) => s.push(g),
        None => s,
    }
}

/// Every group of the live state, in the order of a record.
pub open spec fn live_groups(st: OwnerState, now: Instant, captured_ms: u64) -> Result<Seq<GroupView>, Error> {
    match active_group(st, now, captured_ms) {
        Err(e) => Err(e),
        Ok(active) => match staged_group(st) {
            Err(e) => Err(e),
            Ok(staged) => match unannounced_group(st, now, captured_ms) {
                Err(e) => Err(e),
                Ok(unannounced) => match draining_groups(st, st.draining_contact_aliases@.len(), now, captured_ms) {
                    Err(e) => Err(e),
                    Ok(draining) => Ok(pushed(pushed(seq![active], staged), unannounced) + draining),
                },
            },
        },
    }
}

/// A group that outlives none of its original leases.
pub open spec fn within_origins(g: GroupView) -> Result<GroupView, Error> {
    match expiry_of(g.origins) {
        Err(e) => Err(e),
        Ok(expiry) => Ok(nested(GroupView { deadline_ms: min_of(g.deadline_ms, expiry), ..g })),
    }
}

/// The first `n` groups, none outliving its original leases.
pub open spec fn all_within_origins(groups: Seq<GroupView>, n: nat) -> Result<Seq<GroupView>, Error>
    decreases n,
{
    if n == 0 {
        Ok(Seq::empty())
    } else {
        match all_within_origins(groups, (n - 1) as nat) {
            Err(e) => Err(e),
            Ok(s) => match within_origins(groups[n - 1]) {
                Err(e) => Err(e),
                Ok(g) => Ok(s.push(g)),
            },
        }
    }
}

/// The renewals of queues that some group has.
pub open spec fn kept_renewals(renewals: Map<Seq<u8>, Seq<u8>>, groups: Seq<GroupView>) -> Map<Seq<u8>, Seq<u8>> {
    renewals.restrict(Set::new(|k: Seq<u8>| views(ids_before(groups, groups.len())).contains(k)))
}

/// The record of the live state at a moment.
#[verifier::opaque]
pub open spec fn live_record(st: OwnerState, now: Instant, captured_ms: u64) -> Result<RecordView, Error> {
    match absolute_time(st.contact_aliases_activated, now, captured_ms) {
        Err(e) => Err(e),
        Ok(activated_ms) => match live_groups(st, now, captured_ms) {
            Err(e) => Err(e),
            Ok(live) => match all_within_origins(live, live.len()) {
                Err(e) => Err(e),
                Ok(groups) => Ok(
                    RecordView {
                        captured_ms,
                        activated_ms,
                        groups,
                        renewals: kept_renewals(wires(st.owner_alias_renewals), groups),
                    },
                ),
            },
        },
    }
}

pub open spec fn group_answer(r: Result<Group, Error>, s: Result<GroupView, Error>) -> bool {
    match (r, s) {
        (Ok(x), Ok(y)) => x@ == y,
        (Err(a), Err(b)) => a == b,
        _ => false,
    }
}

pub open spec fn maybe_answer(r: Result<Option<Group>, Error>, s: Result<Option<GroupView>, Error>) -> bool {
    match (r, s) {
        (Ok(Some(x)), Ok(Some(y))) => x@ == y,
        (Ok(None), Ok(None)) => true,
        (Err(a), Err(b)) => a == b,
        _ => false,
    }
}

pub open spec fn groups_answer(r: Result<Vec<Group>, Error>, s: Result<Seq<GroupView>, Error>) -> bool {
    match (r, s) {
        (Ok(x), Ok(y)) => views(x@) == y,
        (Err(a), Err(b)) => a == b,
        _ => false,
    }
}

pub open spec fn record_answer(r: Result<Record, Error>, s: Result<RecordView, Error>) -> bool {
    match (r, s) {
        (Ok(x), Ok(y)) => x@ == y && x.wf(),
        (Err(a), Err(b)) => a == b,
        _ => false,
    }
}

/// A monotonic moment in effective milliseconds, no later than a cap.
fn absolute_capped(deadline: Instant, now: Instant, effective_ms: u64, cap: u64) -> (r: Result<u64, Error>)
    ensures
        r == capped(absolute_time(deadline, now, effective_ms), cap),
{
    match absolute(deadline, now, effective_ms) {
        Ok(x) => Ok(min64(x, cap)),
        Err(e) => Err(e),
    }
}

impl OwnerState {
    /// The tables hold no key twice, and the clock is in order.
    pub open spec fn wf(self) -> bool {
        &&& self.owner_alias_origins.wf()
        &&& self.owner_alias_renewals.wf()
        &&& self.owner_clock.wf()
    }

    fn origins(&self, aliases: &Vec<OwnedAlias>) -> (r: Vec<OwnedAlias>)
        ensures
            views(r@) == origins_of(views(aliases@), self.owner_alias_origins),
    {
        let ghost all = origins_of(views(aliases@), self.owner_alias_origins);
        let mut out: Vec<OwnedAlias> = Vec::new();
        let mut i: usize = 0;
        while i < aliases.len()
            invariant
                i <= aliases.len(),
                out@.len() == i,
                all == origins_of(views(aliases@), self.owner_alias_origins),
                forall|j: int| 0 <= j < i ==> (#[trigger] out@[j])@ == all[j],
            decreases aliases.len() - i,
        {
            let queue = aliases[i].contact.queue_id;
            assert(views(aliases@)[i as int] == aliases@[i as int]@);
            match self.owner_alias_origins.get(&queue) {
                Some(origin) => {
                    out.push(origin.clone());
                },
                None => {
                    out.push(aliases[i].clone());
                },
            }
            i += 1;
        }
        assert(views(out@) =~= all);
        out
    }

    fn provision(&self, aliases: &Vec<OwnedAlias>) -> (r: RelayProvision)
        ensures
            r@ == provision_with(self.client_relay@, views(aliases@)),
    {
        RelayProvision {
            aliases: copy_aliases(aliases),
            frwd_path: self.client_relay.frwd_path.clone(),
            hop_key: self.client_relay.hop_key,
        }
    }

    fn frame_active(&self, now: Instant, captured_ms: u64) -> (r: Result<Group, Error>)
        ensures
            group_answer(r, active_group(*self, now, captured_ms)),
    {
        let expiry: u64 = match alias_expiry(&self.client_relay.aliases) {
            Ok(expiry) => expiry,
            Err(e) => {
                return Err(e);
            },
        };
        let rotation = match self.contact_aliases_activated.checked_add(self.alias_lifecycle_timing.alias_ttl) {
            Some(rotation) => rotation,
            None => {
                return Err(Error::RotationOverflow);
            },
        };
        let action_ms: u64 = match absolute_capped(rotation, now, captured_ms, expiry) {
            Ok(ms) => ms,
            Err(e) => {
                return Err(e);
            },
        };
        Ok(
            Group {
                role: Role::Active,
                provision: self.client_relay.clone(),
                origins: self.origins(&self.client_relay.aliases),
                deadline_ms: expiry,
                action_ms,
                receive_until_ms: 0,
            },
        )
    }

    fn frame_staged(&self) -> (r: Result<Option<Group>, Error>)
        ensures
            maybe_answer(r, staged_group(*self)),
    {
        match &self.staged_contact_aliases {
            None => Ok(None),
            Some(aliases) => {
                let deadline_ms: u64 = match alias_expiry(aliases) {
                    Ok(ms) => ms,
                    Err(e) => {
                        return Err(e);
                    },
                };
                Ok(
                    Some(
                        Group {
                            role: Role::Staged,
                            provision: self.provision(aliases),
                            origins: self.origins(aliases),
                            deadline_ms,
                            action_ms: 0,
                            receive_until_ms: 0,
                        },
                    ),
                )
            },
        }
    }

    fn frame_unannounced(&self, now: Instant, captured_ms: u64) -> (r: Result<Option<Group>, Error>)
        ensures
            maybe_answer(r, unannounced_group(*self, now, captured_ms)),
    {
        match &self.unannounced_old_contact_aliases {
            None => {
                if self.unannounced_contact_deadlines.is_some() {
                    return Err(Error::OrphanAnnouncementDeadlines);
                }
                Ok(None)
            },
            Some(aliases) => {
                let (receive_until, abandon_at) = match self.unannounced_contact_deadlines {
                    Some(deadlines) => deadlines,
                    None => {
                        return Err(Error::MissingAnnouncementDeadlines);
                    },
                };
                let expiry: u64 = match alias_expiry(aliases) {
                    Ok(ms) => ms,
                    Err(e) => {
                        return Err(e);
                    },
                };
                let deadline_ms: u64 = match absolute_capped(abandon_at, now, captured_ms, expiry) {
                    Ok(ms) => ms,
                    Err(e) => {
                        return Err(e);
                    },
                };
                let received: u64 = match absolute_capped(receive_until, now, captured_ms, expiry) {
                    Ok(ms) => ms,
                    Err(e) => {
                        return Err(e);
                    },
                };
                Ok(
                    Some(
                        Group {
                            role: Role::Unannounced,
                            provision: self.provision(aliases),
                            origins: self.origins(aliases),
                            deadline_ms,
                            action_ms: received,
                            receive_until_ms: received,
                        },
                    ),
                )
            },
        }
    }

    fn frame_draining(&self, d: &DrainingContactAliases, now: Instant, captured_ms: u64) -> (r: Result<Group, Error>)
        ensures
            group_answer(r, draining_group(*self, d@, now, captured_ms)),
    {
        let expiry: u64 = match alias_expiry(&d.aliases) {
            Ok(ms) => ms,
            Err(e) => {
                return Err(e);
            },
        };
        let deadline_ms: u64 = match absolute_capped(d.abandon_at, now, captured_ms, expiry) {
            Ok(ms) => ms,
            Err(e) => {
                return Err(e);
            },
        };
        let action_ms: u64 = match absolute_capped(d.next_revoke, now, captured_ms, deadline_ms) {
            Ok(ms) => ms,
            Err(e) => {
                return Err(e);
            },
        };
        let receive_until_ms: u64 = match absolute_capped(d.receive_until, now, captured_ms, deadline_ms) {
            Ok(ms) => ms,
            Err(e) => {
                return Err(e);
            },
        };
        Ok(
            Group {
                role: Role::Draining,
                provision: self.provision(&d.aliases),
                origins: self.origins(&d.aliases),
                deadline_ms,
                action_ms,
                receive_until_ms,
            },
        )
    }

    /// Adds the groups of the draining aliases.
    fn frame_all_draining(&self, groups: &mut Vec<Group>, now: Instant, captured_ms: u64) -> (r: Result<(), Error>)
        ensures
            match draining_groups(*self, self.draining_contact_aliases@.len(), now, captured_ms) {
                Ok(more) => r is Ok && views(final(groups)@) == views(old(groups)@) + more,
                Err(e) => r == Err::<(), Error>(e),
            },
    {
        let ghost before = views(groups@);
        let ghost n = self.draining_contact_aliases@.len();
        let mut i: usize = 0;
        assert(views(groups@) =~= before + Seq::empty());
        while i < self.draining_contact_aliases.len()
            invariant
                i <= self.draining_contact_aliases.len(),
                n == self.draining_contact_aliases@.len(),
                before == views(old(groups)@),
                draining_groups(*self, i as nat, now, captured_ms) is Ok,
                views(groups@) == before + draining_groups(*self, i as nat, now, captured_ms)->Ok_0,
            decreases self.draining_contact_aliases.len() - i,
        {
            let d = &self.draining_contact_aliases[i];
            assert(self.draining_contact_aliases@[i as int]@.aliases.len() == d.aliases@.len());
            if d.aliases.len() > 0 {
                let ghost was = groups@;
                match self.frame_draining(d, now, captured_ms) {
                    Ok(g) => {
                        groups.push(g);
                        assert(views(groups@) =~= views(was).push(g@));
                        assert(views(groups@) =~= before + draining_groups(*self, (i + 1) as nat, now, captured_ms)->Ok_0);
                    },
                    Err(e) => {
                        proof {
                            assert(draining_groups(*self, (i + 1) as nat, now, captured_ms) == Err::<Seq<GroupView>, Error>(e));
                            lemma_draining_stops(*self, (i + 1) as nat, n, now, captured_ms);
                        }
                        return Err(e);
                    },
                }
            }
            i += 1;
        }
        Ok(())
    }

    fn frame_groups(&self, now: Instant, captured_ms: u64) -> (r: Result<Vec<Group>, Error>)
        ensures
            groups_answer(r, live_groups(*self, now, captured_ms)),
    {
        let active = match self.frame_active(now, captured_ms) {
            Ok(g) => g,
            Err(e) => {
                return Err(e);
            },
        };
        let mut groups: Vec<Group> = Vec::new();
        groups.push(active);
        assert(views(groups@) =~= seq![active@]);
        match self.frame_staged() {
            Ok(Some(g)) => {
                let ghost was = groups@;
                groups.push(g);
                assert(views(groups@) =~= views(was).push(g@));
            },
            Ok(None) => {},
            Err(e) => {
                return Err(e);
            },
        }
        match self.frame_unannounced(now, captured_ms) {
            Ok(Some(g)) => {
                let ghost was = groups@;
                groups.push(g);
                assert(views(groups@) =~= views(was).push(g@));
            },
            Ok(None) => {},
            Err(e) => {
                return Err(e);
            },
        }
        match self.frame_all_draining(&mut groups, now, captured_ms) {
            Ok(()) => Ok(groups),
            Err(e) => Err(e),
        }
    }

    /// The renewals of queues that some group has.
    fn frame_renewals(&self, groups: &Vec<Group>) -> (r: Table<[u8; 32], Vec<u8>>)
        requires
            self.owner_alias_renewals.wf(),
        ensures
            r.wf(),
            wires(r) == kept_renewals(wires(self.owner_alias_renewals), views(groups@)),
    {
        let queues = all_queues(groups);
        let t = &self.owner_alias_renewals;
        let ghost ks = t.keys();
        let ghost ids = views(queues@);
        let mut out: Table<[u8; 32], Vec<u8>> = Table::new();
        let mut i: usize = 0;
        while i < t.entries.len()
            invariant
                i <= t.entries.len(),
                *t == self.owner_alias_renewals,
                t.wf(),
                ks == t.keys(),
                ids == views(queues@),
                out.wf(),
                forall|k: Seq<u8>| #[trigger] out.has(k) ==> ks.take(i as int).contains(k) && ids.contains(k) && out.at(k)@ == t.at(k)@,
                forall|j: int| 0 <= j < i && ids.contains(#[trigger] ks[j]) ==> out.has(ks[j]),
            decreases t.entries.len() - i,
        {
            let queue = t.entries[i].0;
            let ghost was = out;
            let ghost had = ks.take(i as int).contains(queue@);
            assert(ks[i as int] == queue@);
            proof {
                lemma_place_is(ks, queue@, i as int);
                if had {
                    let j = ks.take(i as int).index_of(queue@);
                    assert(ks[j] == ks[i as int]);
                }
            }
            if among(&queues, &queue) {
                let _ = out.insert(queue, copy_bytes(t.entries[i].1.as_slice()));
            }
            proof {
                assert forall|k: Seq<u8>| #[trigger] out.has(k) implies ks.take(i + 1).contains(k) && ids.contains(k) && out.at(k)@
                    == t.at(k)@ by {
                    if k == queue@ {
                        assert(ks.take(i + 1)[i as int] == k);
                        assert(out.lookup(k) is Some);
                        if !ids.contains(k) {
                            assert(was.has(k));
                        }
                    } else {
                        assert(out.lookup(k) == was.lookup(k));
                        assert(was.has(k));
                        let j = ks.take(i as int).index_of(k);
                        assert(ks.take(i + 1)[j] == k);
                    }
                }
                assert forall|j: int| 0 <= j < i + 1 && ids.contains(#[trigger] ks[j]) implies out.has(ks[j]) by {
                    if j < i {
                        assert(was.has(ks[j]));
                        assert(ks[j] != queue@);
                        assert(out.lookup(ks[j]) == was.lookup(ks[j]));
                    } else {
                        assert(out.lookup(queue@) is Some);
                    }
                }
            }
            i += 1;
        }
        proof {
            let m = kept_renewals(wires(*t), views(groups@));
            assert(ks.take(i as int) =~= ks);
            assert forall|k: Seq<u8>| m.dom().contains(k) == wires(out).dom().contains(k) by {
                if m.dom().contains(k) {
                    let j = ks.index_of(k);
                    assert(out.has(ks[j]));
                }
            }
            assert forall|k: Seq<u8>| #[trigger] m.dom().contains(k) implies m[k] == wires(out)[k] by {
                assert(wires(out).dom().contains(k));
                assert(out.has(k));
            }
            assert(wires(out) =~= m);
        }
        out
    }

    /// The record of the live state at a moment.
    fn frame_record(&self, now: Instant, captured_ms: u64) -> (r: Result<Record, Error>)
        requires
            self.wf(),
        ensures
            record_answer(r, live_record(*self, now, captured_ms)),
    {
        proof {
            reveal(live_record);
        }
        let activated_ms: u64 = match absolute(self.contact_aliases_activated, now, captured_ms) {
            Ok(ms) => ms,
            Err(e) => {
                return Err(e);
            },
        };
        let live = match self.frame_groups(now, captured_ms) {
            Ok(groups) => groups,
            Err(e) => {
                return Err(e);
            },
        };
        let groups = match cap_groups(live) {
            Ok(groups) => groups,
            Err(e) => {
                return Err(e);
            },
        };
        let renewals = self.frame_renewals(&groups);
        Ok(Record { captured_ms, activated_ms, groups, renewals })
    }

    /// Seals the record of the live state, and notes its budgets on the clock.
    pub fn seal_current(&mut self, wall_ms: u64, now: Instant, keys: &NodeKeys, codec: &Codec, p: &Protocol) -> (r: Result<Vec<u8>, Error>)
        requires
            old(self).wf(),
        ensures
            final(self).wf(),
            same_but_clock(*old(self), *final(self)),
            sealed_clock(*old(self), final(self).owner_clock, wall_ms, now),
            match observation(old(self).owner_clock, wall_ms, now) {
                Err(e) => r == Err::<Vec<u8>, Error>(e),
                Ok(captured_ms) => match live_record(*old(self), now, captured_ms) {
                    Err(e) => r == Err::<Vec<u8>, Error>(e),
                    Ok(live) => seals_current(
                        limited_record(live, old(self).owner_clock),
                        captured_ms,
                        old(self).routed,
                        *keys,
                        *codec,
                        *p,
                        r,
                    ),
                },
            },
    {
        proof {
            reveal(seals_current);
        }
        let captured_ms: u64 = match self.owner_clock.observe(wall_ms, now) {
            Ok(ms) => ms,
            Err(e) => {
                return Err(e);
            },
        };
        proof {
            lemma_clock_aside(*self, *old(self), now, captured_ms);
        }
        let mut record = match self.frame_record(now, captured_ms) {
            Ok(record) => record,
            Err(e) => {
                return Err(e);
            },
        };
        let ghost live = record@;
        self.owner_clock.retain_limits(&mut record);
        assert(record@ == limited_record(live, old(self).owner_clock));
        if !self.routed {
            match record.validate_live(captured_ms) {
                Ok(()) => {},
                Err(e) => {
                    return Err(e);
                },
            }
        }
        let target = match record.active_target() {
            Ok(target) => target,
            Err(e) => {
                return Err(e);
            },
        };
        seal(&record, &target, keys, codec, p)
    }
}

/// How the sealing of the live record comes out: refused where it is no longer
/// live and nothing else could find it a relay, else sealed for its own target.
#[verifier::opaque]
pub open spec fn seals_current(
    record: RecordView,
    captured_ms: u64,
    routed: bool,
    keys: NodeKeys,
    codec: Codec,
    p: Protocol,
    r: Result<Vec<u8>, Error>,
) -> bool {
    if !routed && live_error(record, captured_ms) is Some {
        r == Err::<Vec<u8>, Error>(live_error(record, captured_ms)->0)
    } else {
        match spec_active_target(record.groups, record.groups.len()) {
            None => r == Err::<Vec<u8>, Error>(Error::MissingActiveAliases),
            Some(target) => seals_record(record, target, keys, codec, p, r),
        }
    }
}

/// The clock once the live record was framed: the reading is noted, and so are the
/// budgets of the record where there is one. Where it started from stays.
pub open spec fn sealed_clock(st: OwnerState, after: RestoreClock, wall_ms: u64, now: Instant) -> bool {
    let seen = st.owner_clock.observed(wall_ms, now);
    match observation(st.owner_clock, wall_ms, now) {
        Err(_) => after == seen,
        Ok(captured_ms) => match live_record(st, now, captured_ms) {
            Err(_) => after == seen,
            Ok(live) => {
                &&& notes_budget(after, limited_record(live, st.owner_clock))
                &&& after == (RestoreClock { limits: after.limits, activation: after.activation, ..seen })
            },
        },
    }
}

/// Whether nothing but the clock differs.
pub open spec fn same_but_clock(a: OwnerState, b: OwnerState) -> bool {
    &&& a.client_relay == b.client_relay
    &&& a.staged_contact_aliases == b.staged_contact_aliases
    &&& a.unannounced_old_contact_aliases == b.unannounced_old_contact_aliases
    &&& a.unannounced_contact_deadlines == b.unannounced_contact_deadlines
    &&& a.draining_contact_aliases == b.draining_contact_aliases
    &&& a.owner_alias_origins == b.owner_alias_origins
    &&& a.owner_alias_renewals == b.owner_alias_renewals
    &&& a.contact_aliases_activated == b.contact_aliases_activated
    &&& a.alias_lifecycle_timing == b.alias_lifecycle_timing
    &&& a.public_aliases == b.public_aliases
    &&& a.routed == b.routed
}

proof fn lemma_clock_aside(a: OwnerState, b: OwnerState, now: Instant, captured_ms: u64)
    requires
        same_but_clock(a, b),
    ensures
        live_record(a, now, captured_ms) == live_record(b, now, captured_ms),
{
    reveal(live_record);
    lemma_draining_aside(a, b, a.draining_contact_aliases@.len(), now, captured_ms);
}

proof fn lemma_draining_aside(a: OwnerState, b: OwnerState, n: nat, now: Instant, captured_ms: u64)
    requires
        same_but_clock(a, b),
    ensures
        draining_groups(a, n, now, captured_ms) == draining_groups(b, n, now, captured_ms),
    decreases n,
{
    if n > 0 {
        lemma_draining_aside(a, b, (n - 1) as nat, now, captured_ms);
    }
}

proof fn lemma_draining_stops(st: OwnerState, m: nat, n: nat, now: Instant, captured_ms: u64)
    requires
        m <= n,
        draining_groups(st, m, now, captured_ms) is Err,
    ensures
        draining_groups(st, n, now, captured_ms) == draining_groups(st, m, now, captured_ms),
    decreases n,
{
    if m < n {
        lemma_draining_stops(st, m, (n - 1) as nat, now, captured_ms);
    }
}

proof fn lemma_caps_stop(groups: Seq<GroupView>, m: nat, n: nat)
    requires
        m <= n,
        all_within_origins(groups, m) is Err,
    ensures
        all_within_origins(groups, n) == all_within_origins(groups, m),
    decreases n,
{
    if m < n {
        lemma_caps_stop(groups, m, (n - 1) as nat);
    }
}

/// The groups, none outliving its original leases.
#[verifier::loop_isolation(false)]
fn cap_groups(groups: Vec<Group>) -> (r: Result<Vec<Group>, Error>)
    ensures
        groups_answer(r, all_within_origins(views(groups@), groups@.len())),
{
    let ghost gs = views(groups@);
    let mut rest = groups;
    let mut out: Vec<Group> = Vec::new();
    let mut i: usize = 0;
    let n: usize = rest.len();
    assert(views(out@) =~= Seq::empty());
    while i < n
        invariant
            i <= n,
            n == gs.len(),
            rest@.len() == n - i,
            forall|j: int| 0 <= j < rest@.len() ==> (#[trigger] rest@[j])@ == gs[i + j],
            all_within_origins(gs, i as nat) is Ok,
            views(out@) == all_within_origins(gs, i as nat)->Ok_0,
        decreases n - i,
    {
        let mut g = rest.remove(0);
        assert(g@ == gs[i as int]);
        match alias_expiry(&g.origins) {
            Ok(expiry) => {
                g.deadline_ms = min64(g.deadline_ms, expiry);
                g.action_ms = min64(g.action_ms, g.deadline_ms);
                g.receive_until_ms = min64(g.receive_until_ms, g.action_ms);
                assert(within_origins(gs[i as int]) == Ok::<GroupView, Error>(g@));
                let ghost was = out@;
                out.push(g);
                assert(views(out@) =~= views(was).push(g@));
            },
            Err(e) => {
                proof {
                    assert(all_within_origins(gs, (i + 1) as nat) == Err::<Seq<GroupView>, Error>(e));
                    lemma_caps_stop(gs, (i + 1) as nat, gs.len());
                }
                return Err(e);
            },
        }
        i += 1;
    }
    Ok(out)
}

/// The queues of all groups, in order.
fn all_queues(groups: &Vec<Group>) -> (r: Vec<[u8; 32]>)
    ensures
        r@ == ids_before(views(groups@), groups@.len()),
{
    let ghost gs = views(groups@);
    let mut out: Vec<[u8; 32]> = Vec::new();
    let mut i: usize = 0;
    while i < groups.len()
        invariant
            i <= groups.len(),
            gs == views(groups@),
            out@ == ids_before(gs, i as nat),
        decreases groups.len() - i,
    {
        let aliases = &groups[i].provision.aliases;
        let ghost ids = queue_ids(gs[i as int]);
        let ghost before = out@;
        assert(gs[i as int] == groups@[i as int]@);
        let mut j: usize = 0;
        while j < aliases.len()
            invariant
                j <= aliases.len(),
                i < groups.len(),
                *aliases == groups@[i as int].provision.aliases,
                gs == views(groups@),
                gs[i as int] == groups@[i as int]@,
                ids == queue_ids(gs[i as int]),
                out@ == before + ids.take(j as int),
            decreases aliases.len() - j,
        {
            assert(ids[j as int] == aliases@[j as int].contact.queue_id);
            out.push(aliases[j].contact.queue_id);
            j += 1;
            assert(out@ =~= before + ids.take(j as int));
        }
        assert(ids.take(j as int) =~= ids);
        i += 1;
    }
    out
}

/// The live aliases by what they are kept for.
pub struct RolesView {
    pub active: Seq<OwnedAliasView>,
    pub staged: Option<Seq<OwnedAliasView>>,
    pub unannounced: Option<Seq<OwnedAliasView>>,
    pub deadlines: Option<(Instant, Instant)>,
    pub draining: Seq<DrainingView>,
}

struct Roles {
    active: Vec<OwnedAlias>,
    staged: Option<Vec<OwnedAlias>>,
    unannounced: Option<Vec<OwnedAlias>>,
    deadlines: Option<(Instant, Instant)>,
    draining: Vec<DrainingContactAliases>,
}

pub open spec fn opt_views(o: Option<Vec<OwnedAlias>>) -> Option<Seq<OwnedAliasView>> {
    match o {
        Some(v) => Some(views(v@)),
        None => None,
    }
}

impl View for Roles {
    type V = RolesView;

    closed spec fn view(&self) -> RolesView {
        RolesView {
            active: views(self.active@),
            staged: opt_views(self.staged),
            unannounced: opt_views(self.unannounced),
            deadlines: self.deadlines,
            draining: views(self.draining@),
        }
    }
}

/// The live aliases of a state.
pub open spec fn roles_of(st: OwnerState) -> RolesView {
    RolesView {
        active: views(st.client_relay.aliases@),
        staged: opt_views(st.staged_contact_aliases),
        unannounced: opt_views(st.unannounced_old_contact_aliases),
        deadlines: st.unannounced_contact_deadlines,
        draining: views(st.draining_contact_aliases@),
    }
}

/// The monotonic moment of an effective time that is not past, or now.
pub open spec fn moment(ms: u64, now: Instant, effective_ms: u64) -> Option<Instant> {
    let ahead = if ms > effective_ms {
        (ms - effective_ms) * 1_000_000
    } else {
        0
    };
    if now.nanos + ahead <= u128::MAX {
        Some(Instant { nanos: (now.nanos + ahead) as u128 })
    } else {
        None
    }
}

fn moment_at(ms: u64, now: Instant, effective_ms: u64) -> (r: Option<Instant>)
    ensures
        r == moment(ms, now, effective_ms),
{
    now.checked_add(Duration::from_millis(ms.saturating_sub(effective_ms)))
}

/// The live aliases after one group of a record is taken up. Expired roles but
/// the active one are left out; nothing where a deadline cannot be represented.
pub open spec fn take_up(v: RolesView, g: GroupView, now: Instant, effective_ms: u64) -> Option<RolesView> {
    let aliases = g.provision.aliases;
    if g.role !is Active && g.deadline_ms <= effective_ms {
        Some(v)
    } else {
        match g.role {
            Role::Active => Some(RolesView { active: aliases, ..v }),
            Role::Staged => Some(RolesView { staged: Some(aliases), ..v }),
            _ => if g.role is Unannounced && effective_ms < g.receive_until_ms {
                match (moment(g.receive_until_ms, now, effective_ms), moment(g.deadline_ms, now, effective_ms)) {
                    (Some(receive_until), Some(abandon_at)) => Some(
                        RolesView { unannounced: Some(aliases), deadlines: Some((receive_until, abandon_at)), ..v },
                    ),
                    _ => None,
                }
            } else {
                match (
                    moment(g.receive_until_ms, now, effective_ms),
                    moment(g.action_ms, now, effective_ms),
                    moment(g.deadline_ms, now, effective_ms),
                ) {
                    (Some(receive_until), Some(next_revoke), Some(abandon_at)) => Some(
                        RolesView {
                            draining: v.draining.push(DrainingView { aliases, receive_until, next_revoke, abandon_at }),
                            ..v
                        },
                    ),
                    _ => None,
                }
            },
        }
    }
}

/// The live aliases after the first `n` groups of a record: those of the record
/// alone, but for active aliases where the record has none.
pub open spec fn taken_up(active: Seq<OwnedAliasView>, groups: Seq<GroupView>, n: nat, now: Instant, effective_ms: u64) -> Option<RolesView>
    decreases n,
{
    if n == 0 {
        Some(RolesView { active, staged: None, unannounced: None, deadlines: None, draining: Seq::empty() })
    } else {
        match taken_up(active, groups, (n - 1) as nat, now, effective_ms) {
            None => None,
            Some(v) => take_up(v, groups[n - 1], now, effective_ms),
        }
    }
}

/// The last original operation of a queue among the first `n` groups.
pub open spec fn origin_in(groups: Seq<GroupView>, n: nat, queue: Seq<u8>) -> Option<OwnedAliasView>
    decreases n,
{
    if n == 0 {
        None
    } else {
        match last_origin(groups[n - 1].origins, groups[n - 1].origins.len(), queue) {
            Some(o) => Some(o),
            None => origin_in(groups, (n - 1) as nat, queue),
        }
    }
}

/// The last of the first `n` aliases with a queue.
pub open spec fn last_origin(origins: Seq<OwnedAliasView>, n: nat, queue: Seq<u8>) -> Option<OwnedAliasView>
    decreases n,
{
    if n == 0 {
        None
    } else if origins[n - 1].contact.queue_id@ == queue {
        Some(origins[n - 1])
    } else {
        last_origin(origins, (n - 1) as nat, queue)
    }
}

pub open spec fn origin_view(o: Option<OwnedAlias>) -> Option<OwnedAliasView> {
    match o {
        Some(a) => Some(a@),
        None => None,
    }
}

/// Whether the budget that a clock has noted of a queue is over.
pub open spec fn spent(clock: RestoreClock, queue: Seq<u8>) -> bool {
    match clock.limits.lookup(queue) {
        Some(limit) => limit.deadline_ms <= clock.last_effective_ms,
        None => false,
    }
}

fn is_spent(clock: &RestoreClock, queue: &[u8; 32]) -> (r: bool)
    ensures
        r == spent(*clock, queue@),
{
    match clock.limits.get(queue) {
        Some(limit) => limit.deadline_ms <= clock.last_effective_ms,
        None => false,
    }
}

/// The contacts among the first `n` aliases whose budget is not over.
pub open spec fn unspent(aliases: Seq<OwnedAliasView>, n: nat, clock: RestoreClock) -> Seq<AliasContact>
    decreases n,
{
    if n == 0 {
        Seq::empty()
    } else {
        let front = unspent(aliases, (n - 1) as nat, clock);
        let c = aliases[n - 1].contact;
        if spent(clock, c.queue_id@) {
            front
        } else {
            front.push(c)
        }
    }
}

fn unspent_contacts(aliases: &Vec<OwnedAlias>, clock: &RestoreClock) -> (r: Vec<AliasContact>)
    ensures
        r@ == unspent(views(aliases@), aliases@.len(), *clock),
{
    let ghost vs = views(aliases@);
    let mut out: Vec<AliasContact> = Vec::new();
    let mut i: usize = 0;
    while i < aliases.len()
        invariant
            i <= aliases.len(),
            vs == views(aliases@),
            out@ == unspent(vs, i as nat, *clock),
        decreases aliases.len() - i,
    {
        let contact = aliases[i].contact;
        assert(vs[i as int].contact == contact);
        if !is_spent(clock, &contact.queue_id) {
            out.push(contact);
        }
        i += 1;
    }
    out
}

/// The contacts among the first `n` aliases that may be announced: not expired,
/// their budget not over, and not on this node's own relay.
pub open spec fn announceable(aliases: Seq<OwnedAliasView>, n: nat, now_unix: u64, own: Seq<RelayTarget>, clock: RestoreClock) -> Seq<AliasContact>
    decreases n,
{
    if n == 0 {
        Seq::empty()
    } else {
        let front = announceable(aliases, (n - 1) as nat, now_unix, own, clock);
        let c = aliases[n - 1].contact;
        if c.expiry > now_unix && !spent(clock, c.queue_id@) && !own.contains(c.target) {
            front.push(c)
        } else {
            front
        }
    }
}

/// The contacts on the public card of a state with those active aliases.
pub open spec fn public_card(
    active: Seq<OwnedAliasView>,
    routed: bool,
    now_unix: u64,
    own: Seq<RelayTarget>,
    clock: RestoreClock,
    kept: Seq<AliasContact>,
) -> Seq<AliasContact> {
    if routed {
        announceable(active, active.len(), now_unix, own, clock)
    } else {
        kept
    }
}

pub fn has_target(targets: &Vec<RelayTarget>, target: &RelayTarget) -> (r: bool)
    ensures
        r == targets@.contains(*target),
{
    let mut i: usize = 0;
    while i < targets.len()
        invariant
            i <= targets.len(),
            forall|j: int| 0 <= j < i ==> targets@[j] != *target,
        decreases targets.len() - i,
    {
        if targets[i].same(target) {
            assert(targets@[i as int] == *target);
            return true;
        }
        i += 1;
    }
    false
}

impl OwnerState {
    /// Puts on the public card what may be announced of the active aliases. A
    /// node without routing keeps its card. `own` lists the relays that conflict
    /// with this node's own introduction.
    pub fn refresh_public_info(&mut self, now_unix: u64, own: &Vec<RelayTarget>)
        ensures
            final(self).public_aliases@ == public_card(
                views(old(self).client_relay.aliases@),
                old(self).routed,
                now_unix,
                own@,
                old(self).owner_clock,
                old(self).public_aliases@,
            ),
            final(self).client_relay == old(self).client_relay,
            final(self).staged_contact_aliases == old(self).staged_contact_aliases,
            final(self).unannounced_old_contact_aliases == old(self).unannounced_old_contact_aliases,
            final(self).unannounced_contact_deadlines == old(self).unannounced_contact_deadlines,
            final(self).draining_contact_aliases == old(self).draining_contact_aliases,
            final(self).owner_alias_origins == old(self).owner_alias_origins,
            final(self).owner_alias_renewals == old(self).owner_alias_renewals,
            final(self).contact_aliases_activated == old(self).contact_aliases_activated,
            final(self).alias_lifecycle_timing == old(self).alias_lifecycle_timing,
            final(self).owner_clock == old(self).owner_clock,
            final(self).routed == old(self).routed,
    {
        if !self.routed {
            return ;
        }
        let ghost vs = views(self.client_relay.aliases@);
        let mut out: Vec<AliasContact> = Vec::new();
        let mut i: usize = 0;
        while i < self.client_relay.aliases.len()
            invariant
                i <= self.client_relay.aliases.len(),
                vs == views(self.client_relay.aliases@),
                out@ == announceable(vs, i as nat, now_unix, own@, self.owner_clock),
            decreases self.client_relay.aliases.len() - i,
        {
            let contact = self.client_relay.aliases[i].contact;
            assert(vs[i as int].contact == contact);
            if contact.expiry > now_unix && !is_spent(&self.owner_clock, &contact.queue_id) && !has_target(own, &contact.target) {
                out.push(contact);
            }
            i += 1;
        }
        self.public_aliases = out;
    }
}

impl Record {
    /// The original operations of all groups, the last of a queue prevailing.
    fn origin_table(&self) -> (r: Table<[u8; 32], OwnedAlias>)
        ensures
            r.wf(),
            forall|k: Seq<u8>| origin_view(#[trigger] r.lookup(k)) == origin_in(self@.groups, self@.groups.len(), k),
    {
        let ghost gs = self@.groups;
        let mut t: Table<[u8; 32], OwnedAlias> = Table::new();
        let mut i: usize = 0;
        while i < self.groups.len()
            invariant
                i <= self.groups.len(),
                gs == self@.groups,
                t.wf(),
                forall|k: Seq<u8>| origin_view(#[trigger] t.lookup(k)) == origin_in(gs, i as nat, k),
            decreases self.groups.len() - i,
        {
            let origins = &self.groups[i].origins;
            let ghost os = gs[i as int].origins;
            assert(gs[i as int] == self.groups@[i as int]@);
            let ghost start = t;
            let mut j: usize = 0;
            while j < origins.len()
                invariant
                    j <= origins.len(),
                    os == views(origins@),
                    t.wf(),
                    forall|k: Seq<u8>|
                        origin_view(#[trigger] t.lookup(k)) == (match last_origin(os, j as nat, k) {
                            Some(o) => Some(o),
                            None => origin_in(gs, i as nat, k),
                        }),
                decreases origins.len() - j,
            {
                let queue = origins[j].contact.queue_id;
                assert(os[j as int] == origins@[j as int]@);
                let ghost before = t;
                let _ = t.insert(queue, origins[j].clone());
                assert forall|k: Seq<u8>|
                    origin_view(#[trigger] t.lookup(k)) == (match last_origin(os, (j + 1) as nat, k) {
                        Some(o) => Some(o),
                        None => origin_in(gs, i as nat, k),
                    }) by {
                    if k != queue@ {
                        assert(t.lookup(k) == before.lookup(k));
                    }
                }
                j += 1;
            }
            i += 1;
        }
        t
    }

    fn copy(&self) -> (r: Record)
        requires
            self.wf(),
        ensures
            r@ == self@,
            r.wf(),
    {
        let groups = self.groups.clone();
        assert(views(groups@) =~= views(self.groups@));
        Record {
            captured_ms: self.captured_ms,
            activated_ms: self.activated_ms,
            groups,
            renewals: copy_wires(&self.renewals),
        }
    }

    /// The live aliases of the record.
    fn take_up_all(&self, active: &Vec<OwnedAlias>, now: Instant, effective_ms: u64) -> (r: Option<Roles>)
        ensures
            match r {
                Some(v) => taken_up(views(active@), self@.groups, self@.groups.len(), now, effective_ms) == Some(v@),
                None => taken_up(views(active@), self@.groups, self@.groups.len(), now, effective_ms) is None,
            },
    {
        let ghost gs = self@.groups;
        let ghost av = views(active@);
        let mut roles = Roles {
            active: copy_aliases(active),
            staged: None,
            unannounced: None,
            deadlines: None,
            draining: Vec::new(),
        };
        assert(views(roles.draining@) =~= Seq::empty());
        let mut i: usize = 0;
        while i < self.groups.len()
            invariant
                i <= self.groups.len(),
                gs == self@.groups,
                av == views(active@),
                taken_up(av, gs, i as nat, now, effective_ms) == Some(roles@),
            decreases self.groups.len() - i,
        {
            assert(gs[i as int] == self.groups@[i as int]@);
            if !roles.take_up(&self.groups[i], now, effective_ms) {
                proof {
                    assert(taken_up(av, gs, (i + 1) as nat, now, effective_ms) is None);
                    lemma_taken_up_stops(av, gs, (i + 1) as nat, gs.len(), now, effective_ms);
                }
                return None;
            }
            i += 1;
        }
        Some(roles)
    }

    /// Takes up the record as the live state. Offline construction retains
    /// authority and its original deadlines; it does not assert relay admission
    /// or publish an expired receive address. A refusal leaves the state as it was.
    pub fn apply_retained(
        &self,
        st: &mut OwnerState,
        clock: RestoreClock,
        offline: bool,
        wall_ms: u64,
        now: Instant,
        now_unix: u64,
        own: &Vec<RelayTarget>,
    ) -> (r: Result<(), Error>)
        requires
            self.wf(),
            old(st).wf(),
            clock.wf(),
        ensures
            final(st).wf(),
            match apply_error(self@, *old(st), clock, offline, wall_ms, now) {
                Some(e) => r == Err::<(), Error>(e) && *final(st) == *old(st),
                None => r is Ok && applied(self@, *old(st), clock, wall_ms, now, now_unix, own@, *final(st)),
            },
    {
        let mut clock = clock;
        let effective: u64 = match clock.observe(wall_ms, now) {
            Ok(ms) => ms,
            Err(e) => {
                return Err(e);
            },
        };
        if !offline {
            match self.validate_live(effective) {
                Ok(()) => {},
                Err(e) => {
                    return Err(e);
                },
            }
        }
        let age = match self.active_age(effective) {
            Ok(age) => age,
            Err(e) => {
                return Err(e);
            },
        };
        let activated = match now.checked_sub(age) {
            Some(moment) => moment,
            None => {
                return Err(Error::ActiveAgeUnrepresentable);
            },
        };
        let roles = match self.take_up_all(&st.client_relay.aliases, now, effective) {
            Some(roles) => roles,
            None => {
                return Err(Error::DeadlineUnrepresentable);
            },
        };
        let ghost v = roles@;
        let Roles { active, staged, unannounced, deadlines, draining } = roles;
        st.contact_aliases_activated = activated;
        st.client_relay.aliases = active;
        st.staged_contact_aliases = staged;
        st.unannounced_old_contact_aliases = unannounced;
        st.unannounced_contact_deadlines = deadlines;
        st.draining_contact_aliases = draining;
        st.owner_alias_renewals = copy_wires(&self.renewals);
        st.owner_alias_origins = self.origin_table();
        let mut copy = self.copy();
        clock.retain_limits(&mut copy);
        st.public_aliases = unspent_contacts(&st.client_relay.aliases, &clock);
        st.owner_clock = clock;
        st.refresh_public_info(now_unix, own);
        Ok(())
    }

    /// Takes up the record as the live state of a node that is online.
    pub fn apply(
        &self,
        st: &mut OwnerState,
        clock: RestoreClock,
        wall_ms: u64,
        now: Instant,
        now_unix: u64,
        own: &Vec<RelayTarget>,
    ) -> (r: Result<(), Error>)
        requires
            self.wf(),
            old(st).wf(),
            clock.wf(),
        ensures
            final(st).wf(),
            match apply_error(self@, *old(st), clock, false, wall_ms, now) {
                Some(e) => r == Err::<(), Error>(e) && *final(st) == *old(st),
                None => r is Ok && applied(self@, *old(st), clock, wall_ms, now, now_unix, own@, *final(st)),
            },
    {
        self.apply_retained(st, clock, false, wall_ms, now, now_unix, own)
    }
}

/// Whether a state is the live one of a record that was taken up.
pub open spec fn applied(
    r: RecordView,
    st: OwnerState,
    clock: RestoreClock,
    wall_ms: u64,
    now: Instant,
    now_unix: u64,
    own: Seq<RelayTarget>,
    t: OwnerState,
) -> bool {
    let seen = clock.observed(wall_ms, now);
    let v = taken_up(views(st.client_relay.aliases@), r.groups, r.groups.len(), now, seen.last_effective_ms)->0;
    &&& roles_of(t) == v
    &&& t.client_relay.frwd_path == st.client_relay.frwd_path
    &&& t.client_relay.hop_key == st.client_relay.hop_key
    &&& t.contact_aliases_activated.nanos == now.nanos - (seen.last_effective_ms - r.activated_ms) * 1_000_000
    &&& wires(t.owner_alias_renewals) == r.renewals
    &&& forall|k: Seq<u8>| origin_view(#[trigger] t.owner_alias_origins.lookup(k)) == origin_in(r.groups, r.groups.len(), k)
    &&& t.public_aliases@ == public_card(
        v.active,
        st.routed,
        now_unix,
        own,
        t.owner_clock,
        unspent(v.active, v.active.len(), t.owner_clock),
    )
    &&& notes_budget(t.owner_clock, limited_record(r, clock))
    &&& t.owner_clock == (RestoreClock { limits: t.owner_clock.limits, activation: t.owner_clock.activation, ..seen })
    &&& t.alias_lifecycle_timing == st.alias_lifecycle_timing
    &&& t.routed == st.routed
}

/// An address whose budget is over is kept, but not published: what a record that
/// was taken up puts on the public card has time left by the record's own budgets.
pub proof fn expired_addresses_stay_private(
    r: RecordView,
    st: OwnerState,
    clock: RestoreClock,
    wall_ms: u64,
    now: Instant,
    now_unix: u64,
    own: Seq<RelayTarget>,
    t: OwnerState,
    i: int,
)
    requires
        applied(r, st, clock, wall_ms, now, now_unix, own, t),
        0 <= i < t.public_aliases@.len(),
    ensures
        ({
            let groups = limited_record(r, clock).groups;
            limit_in(groups, groups.len(), t.public_aliases@[i].queue_id@) matches Some(limit) ==> limit.deadline_ms
                > t.owner_clock.last_effective_ms
        }),
{
    let active = roles_of(t).active;
    lemma_published(active, active.len(), now_unix, own, t.owner_clock);
}

proof fn lemma_published(active: Seq<OwnedAliasView>, n: nat, now_unix: u64, own: Seq<RelayTarget>, clock: RestoreClock)
    ensures
        forall|i: int| 0 <= i < unspent(active, n, clock).len() ==> !spent(clock, (#[trigger] unspent(active, n, clock)[i]).queue_id@),
        forall|i: int|
            0 <= i < announceable(active, n, now_unix, own, clock).len() ==> !spent(
                clock,
                (#[trigger] announceable(active, n, now_unix, own, clock)[i]).queue_id@,
            ),
    decreases n,
{
    if n > 0 {
        lemma_published(active, (n - 1) as nat, now_unix, own, clock);
    }
}

/// Why a record is not taken up.
pub open spec fn apply_error(r: RecordView, st: OwnerState, clock: RestoreClock, offline: bool, wall_ms: u64, now: Instant) -> Option<Error> {
    match observation(clock, wall_ms, now) {
        Err(e) => Some(e),
        Ok(effective) => if !offline && live_error(r, effective) is Some {
            live_error(r, effective)
        } else if effective < r.activated_ms {
            Some(Error::ActivationInFuture)
        } else if (effective - r.activated_ms) * 1_000_000 > now.nanos {
            Some(Error::ActiveAgeUnrepresentable)
        } else if taken_up(views(st.client_relay.aliases@), r.groups, r.groups.len(), now, effective) is None {
            Some(Error::DeadlineUnrepresentable)
        } else {
            None
        },
    }
}

proof fn lemma_taken_up_stops(active: Seq<OwnedAliasView>, groups: Seq<GroupView>, m: nat, n: nat, now: Instant, effective_ms: u64)
    requires
        m <= n,
        taken_up(active, groups, m, now, effective_ms) is None,
    ensures
        taken_up(active, groups, n, now, effective_ms) is None,
    decreases n,
{
    if m < n {
        lemma_taken_up_stops(active, groups, m, (n - 1) as nat, now, effective_ms);
    }
}

impl Roles {
    /// Takes up one group; false where a deadline cannot be represented.
    fn take_up(&mut self, g: &Group, now: Instant, effective_ms: u64) -> (r: bool)
        ensures
            r == (take_up(old(self)@, g@, now, effective_ms) is Some),
            r ==> Some(final(self)@) == take_up(old(self)@, g@, now, effective_ms),
    {
        if !matches!(g.role, Role::Active) && g.deadline_ms <= effective_ms {
            return true;
        }
        if matches!(g.role, Role::Active) {
            self.active = copy_aliases(&g.provision.aliases);
            return true;
        }
        if matches!(g.role, Role::Staged) {
            self.staged = Some(copy_aliases(&g.provision.aliases));
            return true;
        }
        let receive_until = match moment_at(g.receive_until_ms, now, effective_ms) {
            Some(moment) => moment,
            None => {
                return false;
            },
        };
        let abandon_at = match moment_at(g.deadline_ms, now, effective_ms) {
            Some(moment) => moment,
            None => {
                return false;
            },
        };
        if matches!(g.role, Role::Unannounced) && effective_ms < g.receive_until_ms {
            self.unannounced = Some(copy_aliases(&g.provision.aliases));
            self.deadlines = Some((receive_until, abandon_at));
            return true;
        }
        let next_revoke = match moment_at(g.action_ms, now, effective_ms) {
            Some(moment) => moment,
            None => {
                return false;
            },
        };
        let ghost was = self.draining@;
        let d = DrainingContactAliases { aliases: copy_aliases(&g.provision.aliases), receive_until, next_revoke, abandon_at };
        self.draining.push(d);
        assert(views(self.draining@) =~= views(was).push(d@));
        true
    }
}

/// A copy of a table of byte strings.
pub fn copy_wires(t: &Table<[u8; 32], Vec<u8>>) -> (r: Table<[u8; 32], Vec<u8>>)
    requires
        t.wf(),
    ensures
        r.wf(),
        r.keys() == t.keys(),
        wires(r) == wires(*t),
{
    let ghost ks = t.keys();
    let mut out: Table<[u8; 32], Vec<u8>> = Table::new();
    let mut i: usize = 0;
    while i < t.entries.len()
        invariant
            i <= t.entries.len(),
            ks == t.keys(),
            t.wf(),
            out.entries@.len() == i,
            forall|j: int| 0 <= j < i ==> (#[trigger] out.entries@[j]).0@ == ks[j] && out.entries@[j].1@ == t.entries@[j].1@,
        decreases t.entries.len() - i,
    {
        out.entries.push((t.entries[i].0, copy_bytes(t.entries[i].1.as_slice())));
        i += 1;
    }
    proof {
        assert(out.keys() =~= ks);
        assert forall|k: Seq<u8>| #[trigger] wires(out).dom().contains(k) implies wires(out)[k] == wires(*t)[k] by {
            lemma_place(ks, k);
            assert(out.entries@[place(ks, k)].1@ == t.entries@[place(ks, k)].1@);
        }
        assert(wires(out) =~= wires(*t));
    }
    out
}

/// Whether two readings differ in nothing but the active aliases.
spec fn same_but_active(a: Option<RolesView>, b: Option<RolesView>) -> bool {
    match (a, b) {
        (Some(x), Some(y)) => x.staged == y.staged && x.unannounced == y.unannounced && x.deadlines == y.deadlines && x.draining
            == y.draining,
        (None, None) => true,
        _ => false,
    }
}

proof fn lemma_active_aside(a: Seq<OwnedAliasView>, b: Seq<OwnedAliasView>, groups: Seq<GroupView>, n: nat, now: Instant, effective_ms: u64)
    ensures
        same_but_active(taken_up(a, groups, n, now, effective_ms), taken_up(b, groups, n, now, effective_ms)),
        (exists|i: int| 0 <= i < n && (#[trigger] groups[i]).role is Active) ==> taken_up(a, groups, n, now, effective_ms)
            == taken_up(b, groups, n, now, effective_ms),
    decreases n,
{
    if n > 0 {
        lemma_active_aside(a, b, groups, (n - 1) as nat, now, effective_ms);
        if exists|i: int| 0 <= i < n && (#[trigger] groups[i]).role is Active {
            let i = choose|i: int| 0 <= i < n && (#[trigger] groups[i]).role is Active;
            if i < n - 1 {
                assert(exists|i: int| 0 <= i < n - 1 && (#[trigger] groups[i]).role is Active);
            }
        }
    }
}

/// A record with an active group says by itself which aliases are live: nothing
/// of the state before survives, so taking it up a second time adds nothing.
pub proof fn retained_roles_come_from_the_record(
    a: Seq<OwnedAliasView>,
    b: Seq<OwnedAliasView>,
    groups: Seq<GroupView>,
    i: int,
    now: Instant,
    effective_ms: u64,
)
    requires
        0 <= i < groups.len(),
        groups[i].role is Active,
    ensures
        taken_up(a, groups, groups.len(), now, effective_ms) == taken_up(b, groups, groups.len(), now, effective_ms),
{
    lemma_active_aside(a, b, groups, groups.len(), now, effective_ms);
}

/// Whether aliases are those of one of the first `n` groups that is being given
/// up and whose deadline lies ahead.
pub open spec fn given_up_in(groups: Seq<GroupView>, n: nat, aliases: Seq<OwnedAliasView>, effective_ms: u64) -> bool {
    exists|i: int|
        0 <= i < n && is_cleanup((#[trigger] groups[i]).role) && groups[i].deadline_ms > effective_ms
            && groups[i].provision.aliases == aliases
}

/// Roles that are absent from a record, or expired, are not live after it is
/// taken up: staged, unannounced and draining aliases are those of a group of
/// such a role whose time lies ahead.
pub proof fn expired_roles_do_not_survive(active: Seq<OwnedAliasView>, groups: Seq<GroupView>, n: nat, now: Instant, effective_ms: u64)
    requires
        n <= groups.len(),
        taken_up(active, groups, n, now, effective_ms) is Some,
    ensures
        (taken_up(active, groups, n, now, effective_ms)->0).staged matches Some(aliases) ==> exists|i: int|
            0 <= i < n && (#[trigger] groups[i]).role is Staged && groups[i].deadline_ms > effective_ms
                && groups[i].provision.aliases == aliases,
        (taken_up(active, groups, n, now, effective_ms)->0).unannounced matches Some(aliases) ==> exists|i: int|
            0 <= i < n && (#[trigger] groups[i]).role is Unannounced && groups[i].receive_until_ms > effective_ms
                && groups[i].provision.aliases == aliases,
        forall|j: int|
            0 <= j < (taken_up(active, groups, n, now, effective_ms)->0).draining.len() ==> given_up_in(
                groups,
                n,
                (#[trigger] (taken_up(active, groups, n, now, effective_ms)->0).draining[j]).aliases,
                effective_ms,
            ),
    decreases n,
{
    if n > 0 {
        expired_roles_do_not_survive(active, groups, (n - 1) as nat, now, effective_ms);
        let v = taken_up(active, groups, (n - 1) as nat, now, effective_ms)->0;
        let w = taken_up(active, groups, n, now, effective_ms)->0;
        let g = groups[n - 1];
        if w.staged is Some {
            if v.staged != w.staged {
                assert(g.role is Staged && g.deadline_ms > effective_ms && g.provision.aliases == w.staged->0);
            }
        }
        if w.unannounced is Some {
            if v.unannounced != w.unannounced {
                assert(g.role is Unannounced && g.receive_until_ms > effective_ms && g.provision.aliases == w.unannounced->0);
            }
        }
        assert forall|j: int| 0 <= j < w.draining.len() implies given_up_in(
            groups,
            n,
            (#[trigger] w.draining[j]).aliases,
            effective_ms,
        ) by {
            if j < v.draining.len() {
                assert(w.draining[j] == v.draining[j]);
                assert(given_up_in(groups, (n - 1) as nat, v.draining[j].aliases, effective_ms));
                let i = choose|i: int|
                    0 <= i < n - 1 && is_cleanup((#[trigger] groups[i]).role) && groups[i].deadline_ms > effective_ms
                        && groups[i].provision.aliases == v.draining[j].aliases;
                assert(is_cleanup(groups[i].role));
            } else {
                assert(is_cleanup(groups[n - 1].role));
            }
        }
    }
}

/// How long an alias may be used: its lease, and no longer than noted of its queue.
pub open spec fn use_until(clock: RestoreClock, contact: AliasContact) -> u64 {
    match clock.limits.lookup(contact.queue_id@) {
        None => (contact.expiry * 1000) as u64,
        Some(l) => min_of((contact.expiry * 1000) as u64, l.deadline_ms),
    }
}

/// How long an alias may receive: as long as it may be used, and for an alias
/// that is being given up no longer than its noted end of reception.
pub open spec fn receive_until(clock: RestoreClock, contact: AliasContact) -> u64 {
    match clock.limits.lookup(contact.queue_id@) {
        Some(l) => if is_cleanup(l.role) {
            min_of(use_until(clock, contact), l.receive_until_ms)
        } else {
            use_until(clock, contact)
        },
        None => use_until(clock, contact),
    }
}

/// Whether one of the first `n` active aliases is one that the clock is asked about.
pub open spec fn asks_clock(st: OwnerState, n: nat) -> bool
    decreases n,
{
    n > 0 && (asks_clock(st, (n - 1) as nat) || !st.routed || st.public_aliases@.contains(st.client_relay.aliases@[n - 1].contact))
}

proof fn lemma_asks_stays(st: OwnerState, m: nat, n: nat)
    requires
        m <= n,
        asks_clock(st, m),
    ensures
        asks_clock(st, n),
    decreases n,
{
    if m < n {
        lemma_asks_stays(st, m, (n - 1) as nat);
    }
}

impl OwnerState {
    /// The effective time, and how long an alias may be used.
    pub fn alias_deadline(&mut self, contact: &AliasContact, wall_ms: u64, now: Instant) -> (r: Result<(u64, u64), Error>)
        requires
            old(self).wf(),
        ensures
            final(self).wf(),
            same_but_clock(*old(self), *final(self)),
            final(self).owner_clock.same_budget(old(self).owner_clock),
            match observation(old(self).owner_clock, wall_ms, now) {
                Err(e) => r == Err::<(u64, u64), Error>(e) && *final(self) == *old(self),
                Ok(effective) => {
                    &&& final(self).owner_clock.last_wall_ms == wall_ms
                    &&& final(self).owner_clock.last_instant == now
                    &&& final(self).owner_clock.last_effective_ms == effective
                    &&& r == (if contact.expiry * 1000 > u64::MAX {
                        Err::<(u64, u64), Error>(Error::ExpiryOverflow)
                    } else {
                        Ok::<(u64, u64), Error>((effective, use_until(old(self).owner_clock, *contact)))
                    })
                },
            },
    {
        let effective: u64 = match self.owner_clock.observe(wall_ms, now) {
            Ok(ms) => ms,
            Err(e) => {
                return Err(e);
            },
        };
        let lease: u64 = match contact.expiry.checked_mul(1000) {
            Some(ms) => ms,
            None => {
                return Err(Error::ExpiryOverflow);
            },
        };
        let deadline: u64 = match self.owner_clock.limits.get(&contact.queue_id) {
            Some(l) => min64(lease, l.deadline_ms),
            None => lease,
        };
        Ok((effective, deadline))
    }

    /// The effective time, and how long an alias may receive.
    pub fn receive_deadline(&mut self, contact: &AliasContact, wall_ms: u64, now: Instant) -> (r: Result<(u64, u64), Error>)
        requires
            old(self).wf(),
        ensures
            final(self).wf(),
            same_but_clock(*old(self), *final(self)),
            final(self).owner_clock.same_budget(old(self).owner_clock),
            match observation(old(self).owner_clock, wall_ms, now) {
                Err(e) => r == Err::<(u64, u64), Error>(e) && *final(self) == *old(self),
                Ok(effective) => {
                    &&& final(self).owner_clock.last_wall_ms == wall_ms
                    &&& final(self).owner_clock.last_instant == now
                    &&& final(self).owner_clock.last_effective_ms == effective
                    &&& r == (if contact.expiry * 1000 > u64::MAX {
                        Err::<(u64, u64), Error>(Error::ExpiryOverflow)
                    } else {
                        Ok::<(u64, u64), Error>((effective, receive_until(old(self).owner_clock, *contact)))
                    })
                },
            },
    {
        let effective: u64 = match self.owner_clock.observe(wall_ms, now) {
            Ok(ms) => ms,
            Err(e) => {
                return Err(e);
            },
        };
        let lease: u64 = match contact.expiry.checked_mul(1000) {
            Some(ms) => ms,
            None => {
                return Err(Error::ExpiryOverflow);
            },
        };
        let deadline: u64 = match self.owner_clock.limits.get(&contact.queue_id) {
            Some(l) => {
                if matches!(l.role, Role::Unannounced | Role::Draining) {
                    min64(min64(lease, l.deadline_ms), l.receive_until_ms)
                } else {
                    min64(lease, l.deadline_ms)
                }
            },
            None => lease,
        };
        Ok((effective, deadline))
    }

    /// Whether every active alias that is on the public card may still be used.
    /// With routing, an alias that is not announced does not matter.
    pub fn validate_current_live(&mut self, wall_ms: u64, now: Instant) -> (r: Result<(), Error>)
        requires
            old(self).wf(),
        ensures
            final(self).wf(),
            same_but_clock(*old(self), *final(self)),
            final(self).owner_clock == (if asks_clock(*old(self), old(self).client_relay.aliases@.len()) {
                old(self).owner_clock.observed(wall_ms, now)
            } else {
                old(self).owner_clock
            }),
            r == outcome(current_error(*old(self), old(self).client_relay.aliases@.len(), wall_ms, now)),
    {
        let ghost st = *self;
        let ghost n = self.client_relay.aliases@.len();
        let mut i: usize = 0;
        while i < self.client_relay.aliases.len()
            invariant
                i <= self.client_relay.aliases@.len(),
                st == *old(self),
                n == st.client_relay.aliases@.len(),
                st.wf(),
                self.wf(),
                same_but_clock(st, *self),
                self.owner_clock == (if asks_clock(st, i as nat) {
                    st.owner_clock.observed(wall_ms, now)
                } else {
                    st.owner_clock
                }),
                asks_clock(st, i as nat) ==> observation(st.owner_clock, wall_ms, now) is Ok,
                current_error(st, i as nat, wall_ms, now) is None,
            decreases self.client_relay.aliases@.len() - i,
        {
            let contact = self.client_relay.aliases[i].contact;
            let listed = has_contact(&self.public_aliases, &contact);
            if !self.routed || listed {
                let checked = self.alias_deadline(&contact, wall_ms, now);
                match checked {
                    Ok((effective, deadline)) => {
                        if deadline <= effective {
                            proof {
                                lemma_asks_stays(st, (i + 1) as nat, n);
                                lemma_current_stops(st, (i + 1) as nat, n, wall_ms, now);
                            }
                            return Err(Error::ActiveAliasExpiredBeforePublication);
                        }
                    },
                    Err(e) => {
                        proof {
                            lemma_asks_stays(st, (i + 1) as nat, n);
                            lemma_current_stops(st, (i + 1) as nat, n, wall_ms, now);
                        }
                        return Err(e);
                    },
                }
            }
            i += 1;
        }
        Ok(())
    }

    /// Whether the active aliases are due for rotation: by the boundary noted of
    /// one of them, or by their age.
    pub fn rotation_due(&mut self, timing: AliasLifecycleConfig, wall_ms: u64, now: Instant) -> (r: Result<bool, Error>)
        requires
            old(self).wf(),
        ensures
            final(self).wf(),
            same_but_clock(*old(self), *final(self)),
            final(self).owner_clock == old(self).owner_clock.observed(wall_ms, now),
            match observation(old(self).owner_clock, wall_ms, now) {
                Err(e) => r == Err::<bool, Error>(e) && *final(self) == *old(self),
                Ok(effective) => r == Ok::<bool, Error>(rotates(*old(self), timing, effective, now)),
            },
    {
        let effective: u64 = match self.owner_clock.observe(wall_ms, now) {
            Ok(ms) => ms,
            Err(e) => {
                return Err(e);
            },
        };
        let mut saved_due = false;
        let mut i: usize = 0;
        while i < self.client_relay.aliases.len()
            invariant
                i <= self.client_relay.aliases@.len(),
                same_but_clock(*old(self), *self),
                self.owner_clock == old(self).owner_clock.observed(wall_ms, now),
                saved_due == noted_due(*old(self), i as nat, effective),
            decreases self.client_relay.aliases@.len() - i,
        {
            let queue = self.client_relay.aliases[i].contact.queue_id;
            match self.owner_clock.limits.get(&queue) {
                Some(l) => {
                    if matches!(l.role, Role::Active) && l.action_ms <= effective {
                        saved_due = true;
                    }
                },
                None => {},
            }
            i += 1;
        }
        Ok(saved_due || now.duration_since(self.contact_aliases_activated).nanos >= timing.alias_ttl.nanos)
    }
}

pub open spec fn age_at(since: Instant, now: Instant) -> int {
    if now.nanos >= since.nanos {
        now.nanos - since.nanos
    } else {
        0
    }
}

/// Whether one of the first `n` active aliases has reached its noted boundary.
pub open spec fn noted_due(st: OwnerState, n: nat, effective_ms: u64) -> bool
    decreases n,
{
    n > 0 && (noted_due(st, (n - 1) as nat, effective_ms) || match st.owner_clock.limits.lookup(
        st.client_relay.aliases@[n - 1].contact.queue_id@,
    ) {
        Some(l) => l.role is Active && l.action_ms <= effective_ms,
        None => false,
    })
}

/// Whether the active aliases are to be rotated at a moment.
pub open spec fn rotates(st: OwnerState, timing: AliasLifecycleConfig, effective_ms: u64, now: Instant) -> bool {
    noted_due(st, st.client_relay.aliases@.len(), effective_ms) || age_at(st.contact_aliases_activated, now) >= timing.alias_ttl.nanos
}

/// Why the first of the first `n` active aliases that cannot be used cannot.
pub open spec fn current_error(st: OwnerState, n: nat, wall_ms: u64, now: Instant) -> Option<Error>
    decreases n,
{
    if n == 0 {
        None
    } else {
        match current_error(st, (n - 1) as nat, wall_ms, now) {
            Some(e) => Some(e),
            None => {
                let contact = st.client_relay.aliases@[n - 1].contact;
                if st.routed && !st.public_aliases@.contains(contact) {
                    None
                } else {
                    match observation(st.owner_clock, wall_ms, now) {
                        Err(e) => Some(e),
                        Ok(effective) => if contact.expiry * 1000 > u64::MAX {
                            Some(Error::ExpiryOverflow)
                        } else if use_until(st.owner_clock, contact) <= effective {
                            Some(Error::ActiveAliasExpiredBeforePublication)
                        } else {
                            None
                        },
                    }
                }
            },
        }
    }
}

proof fn lemma_current_stops(st: OwnerState, m: nat, n: nat, wall_ms: u64, now: Instant)
    requires
        m <= n,
        current_error(st, m, wall_ms, now) is Some,
    ensures
        current_error(st, n, wall_ms, now) == current_error(st, m, wall_ms, now),
    decreases n,
{
    if m < n {
        lemma_current_stops(st, m, (n - 1) as nat, wall_ms, now);
    }
}

pub fn has_contact(contacts: &Vec<AliasContact>, contact: &AliasContact) -> (r: bool)
    ensures
        r == contacts@.contains(*contact),
{
    let mut i: usize = 0;
    while i < contacts.len()
        invariant
            i <= contacts.len(),
            forall|j: int| 0 <= j < i ==> contacts@[j] != *contact,
        decreases contacts.len() - i,
    {
        if contacts[i].same(contact) {
            assert(contacts@[i as int] == *contact);
            return true;
        }
        i += 1;
    }
    false
}

} // verus!
