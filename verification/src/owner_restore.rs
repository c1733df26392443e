//! Re-admission of a record's aliases at the relay, step by step. The host
//! performs each step; the decisions are here.

use vstd::prelude::*;
use crate::codec::{Codec, Protocol};
use crate::error::Error;
use crate::model::{OwnedAlias, OwnedAliasView, RelayProvision, RelayProvisionView};
use crate::owner_aliases::{is_cleanup, live_error, min64, min_of, observation, record_error, restorable, GroupView, Record, RecordView, RestoreClock, Role};
use crate::time::Instant;

verus! {

/// What the host does next.
#[derive(Clone, Copy, Debug, PartialEq, Eq, Structural)]
pub enum RestoreStep {
    /// Re-admit an alias of a group at the relay, within so many milliseconds.
    Admit { group: usize, alias: usize, timeout_ms: u64 },
    /// Every alias that may be restored is.
    Done,
}

/// A re-admission under way.
#[derive(Debug)]
pub struct Restoration {
    pub record: Record,
    pub group: usize,
    pub alias: usize,
}

/// The last moment at which an alias of a group may come back.
pub open spec fn boundary_of(g: GroupView) -> u64 {
    if is_cleanup(g.role) {
        min_of(g.deadline_ms, g.receive_until_ms)
    } else {
        g.deadline_ms
    }
}

/// The next alias to re-admit from a place on; nothing where there is none.
pub open spec fn seek(groups: Seq<GroupView>, g: int, a: int, effective_ms: u64) -> Result<Option<(int, int)>, Error>
    decreases groups.len() - g,
{
    if g < 0 || g >= groups.len() {
        Ok(None)
    } else if a > 0 {
        if a < groups[g].provision.aliases.len() {
            Ok(Some((g, a)))
        } else {
            seek(groups, g + 1, 0, effective_ms)
        }
    } else {
        match restorable(groups[g], effective_ms) {
            Err(e) => Err(e),
            Ok(wanted) => if wanted && groups[g].provision.aliases.len() > 0 {
                Ok(Some((g, 0)))
            } else {
                seek(groups, g + 1, 0, effective_ms)
            },
        }
    }
}

/// The next step from a place on, at an effective time.
pub open spec fn step_at(r: RecordView, g: int, a: int, effective_ms: u64) -> Result<RestoreStep, Error> {
    match seek(r.groups, g, a, effective_ms) {
        Err(e) => Err(e),
        Ok(None) => match live_error(r, effective_ms) {
            Some(e) => Err(e),
            None => Ok(RestoreStep::Done),
        },
        Ok(Some((i, j))) => {
            let boundary = boundary_of(r.groups[i]);
            if boundary <= effective_ms {
                Err(Error::ExpiredDuringRestoration)
            } else {
                Ok(RestoreStep::Admit { group: i as usize, alias: j as usize, timeout_ms: (boundary - effective_ms) as u64 })
            }
        },
    }
}

/// A record in which one alias is replaced.
pub open spec fn with_alias(r: RecordView, g: int, a: int, alias: OwnedAliasView) -> RecordView {
    let group = r.groups[g];
    let provision = RelayProvisionView { aliases: group.provision.aliases.update(a, alias), ..group.provision };
    RecordView { groups: r.groups.update(g, GroupView { provision, ..group }), ..r }
}

/// Whether two operations speak for the same queue with the same authority.
pub open spec fn same_authority(a: OwnedAliasView, b: OwnedAliasView) -> bool {
    a.contact == b.contact && a.capabilities == b.capabilities && a.limits == b.limits
}

/// Whether a record keeps all of another but for lease operations and create
/// paths: the same roles, times, originals and renewals, and for every alias the
/// same public identity, capabilities and limits.
pub open spec fn readmits(a: RecordView, b: RecordView) -> bool {
    &&& a.captured_ms == b.captured_ms
    &&& a.activated_ms == b.activated_ms
    &&& a.renewals == b.renewals
    &&& a.groups.len() == b.groups.len()
    &&& forall|i: int| 0 <= i < a.groups.len() ==> readmits_group(#[trigger] a.groups[i], b.groups[i])
}

pub open spec fn readmits_group(a: GroupView, b: GroupView) -> bool {
    &&& a.role == b.role
    &&& a.origins == b.origins
    &&& a.deadline_ms == b.deadline_ms
    &&& a.action_ms == b.action_ms
    &&& a.receive_until_ms == b.receive_until_ms
    &&& a.provision.frwd_path == b.provision.frwd_path
    &&& a.provision.hop_key == b.provision.hop_key
    &&& a.provision.aliases.len() == b.provision.aliases.len()
    &&& forall|j: int|
        0 <= j < a.provision.aliases.len() ==> same_authority(#[trigger] a.provision.aliases[j], b.provision.aliases[j])
}

/// Why a re-admission does not begin.
pub open spec fn begin_error(
    r: RecordView,
    current: RelayProvisionView,
    clock: RestoreClock,
    wall_ms: u64,
    now: Instant,
    codec: Codec,
    p: Protocol,
) -> Option<Error> {
    if current.aliases.len() == 0 {
        Some(Error::NoAdmissionRoute)
    } else {
        match record_error(r, current.aliases[0].contact.target, codec, p) {
            Some(e) => Some(e),
            None => match observation(clock, wall_ms, now) {
                Err(e) => Some(e),
                Ok(effective) => live_error(r, effective),
            },
        }
    }
}

impl Restoration {
    pub open spec fn wf(self) -> bool {
        self.record.wf()
    }

    /// Begins the re-admission of a record through the relay in use.
    pub fn begin(
        record: Record,
        current: &RelayProvision,
        clock: &mut RestoreClock,
        wall_ms: u64,
        now: Instant,
        codec: &Codec,
        p: &Protocol,
    ) -> (r: Result<Restoration, Error>)
        requires
            record.wf(),
        ensures
            *final(clock) == (if current.aliases@.len() == 0 || record_error(
                record@,
                current@.aliases[0].contact.target,
                *codec,
                *p,
            ) is Some {
                *old(clock)
            } else {
                old(clock).observed(wall_ms, now)
            }),
            old(clock).wf() ==> final(clock).wf(),
            match begin_error(record@, current@, *old(clock), wall_ms, now, *codec, *p) {
                Some(e) => r == Err::<Restoration, Error>(e),
                None => r matches Ok(x) && x.record == record && x.group == 0 && x.alias == 0 && x.wf(),
            },
    {
        if current.aliases.len() == 0 {
            return Err(Error::NoAdmissionRoute);
        }
        assert(current@.aliases[0].contact == current.aliases@[0].contact);
        match record.validate(&current.aliases[0].contact.target, codec, p) {
            Ok(()) => {},
            Err(e) => {
                return Err(e);
            },
        }
        let effective: u64 = match clock.observe(wall_ms, now) {
            Ok(ms) => ms,
            Err(e) => {
                return Err(e);
            },
        };
        match record.validate_live(effective) {
            Ok(()) => {},
            Err(e) => {
                return Err(e);
            },
        }
        Ok(Restoration { record, group: 0, alias: 0 })
    }

    /// The next step.
    pub fn next(&mut self, clock: &mut RestoreClock, wall_ms: u64, now: Instant) -> (r: Result<RestoreStep, Error>)
        ensures
            final(self).record == old(self).record,
            *final(clock) == old(clock).observed(wall_ms, now),
            old(clock).wf() ==> final(clock).wf(),
            match observation(*old(clock), wall_ms, now) {
                Err(e) => r == Err::<RestoreStep, Error>(e) && *final(self) == *old(self),
                Ok(effective) => {
                    &&& r == step_at(old(self).record@, old(self).group as int, old(self).alias as int, effective)
                    &&& (r matches Ok(RestoreStep::Admit { group, alias, timeout_ms }) ==> final(self).group == group
                        && final(self).alias == alias)
                },
            },
    {
        let effective: u64 = match clock.observe(wall_ms, now) {
            Ok(ms) => ms,
            Err(e) => {
                return Err(e);
            },
        };
        let ghost rv = self.record@;
        let ghost wanted = seek(rv.groups, self.group as int, self.alias as int, effective);
        while self.group < self.record.groups.len()
            invariant
                self.record == old(self).record,
                rv == self.record@,
                wanted == seek(rv.groups, self.group as int, self.alias as int, effective),
                wanted == seek(rv.groups, old(self).group as int, old(self).alias as int, effective),
                observation(*old(clock), wall_ms, now) == Ok::<u64, Error>(effective),
                *clock == old(clock).observed(wall_ms, now),
                old(clock).wf() ==> clock.wf(),
            decreases self.record.groups@.len() - self.group,
        {
            let g = &self.record.groups[self.group];
            assert(rv.groups[self.group as int] == g@);
            if self.alias == 0 {
                match Record::may_restore(g, effective) {
                    Err(e) => {
                        return Err(e);
                    },
                    Ok(wanted_group) => {
                        if wanted_group && g.provision.aliases.len() > 0 {
                            return self.offer(effective);
                        }
                    },
                }
            } else if self.alias < g.provision.aliases.len() {
                return self.offer(effective);
            }
            self.group = self.group + 1;
            self.alias = 0;
        }
        match self.record.validate_live(effective) {
            Ok(()) => Ok(RestoreStep::Done),
            Err(e) => Err(e),
        }
    }

    fn offer(&self, effective_ms: u64) -> (r: Result<RestoreStep, Error>)
        requires
            self.group < self.record.groups@.len(),
        ensures
            r == (if boundary_of(self.record@.groups[self.group as int]) <= effective_ms {
                Err::<RestoreStep, Error>(Error::ExpiredDuringRestoration)
            } else {
                Ok::<RestoreStep, Error>(
                    RestoreStep::Admit {
                        group: self.group,
                        alias: self.alias,
                        timeout_ms: (boundary_of(self.record@.groups[self.group as int]) - effective_ms) as u64,
                    },
                )
            }),
    {
        let boundary: u64 = self.boundary();
        if boundary <= effective_ms {
            return Err(Error::ExpiredDuringRestoration);
        }
        Ok(RestoreStep::Admit { group: self.group, alias: self.alias, timeout_ms: boundary - effective_ms })
    }

    fn boundary(&self) -> (r: u64)
        requires
            self.group < self.record.groups@.len(),
        ensures
            r == boundary_of(self.record@.groups[self.group as int]),
    {
        let g = &self.record.groups[self.group];
        assert(self.record@.groups[self.group as int] == g@);
        if matches!(g.role, Role::Unannounced | Role::Draining) {
            min64(g.deadline_ms, g.receive_until_ms)
        } else {
            g.deadline_ms
        }
    }

    /// Takes an alias as the relay admitted it. Re-admission may replace the
    /// operation grant and create path, never the public identity or limits.
    pub fn admitted(&mut self, alias: OwnedAlias, clock: &mut RestoreClock, wall_ms: u64, now: Instant) -> (r: Result<(), Error>)
        requires
            old(self).group < old(self).record.groups@.len(),
            old(self).alias < old(self).record.groups@[old(self).group as int].provision.aliases@.len(),
        ensures
            *final(clock) == (if same_authority(
                alias@,
                old(self).record@.groups[old(self).group as int].provision.aliases[old(self).alias as int],
            ) {
                old(clock).observed(wall_ms, now)
            } else {
                *old(clock)
            }),
            old(clock).wf() ==> final(clock).wf(),
            old(self).wf() ==> final(self).wf(),
            ({
                let g = old(self).group as int;
                let a = old(self).alias as int;
                let was = old(self).record@;
                if !same_authority(alias@, was.groups[g].provision.aliases[a]) {
                    r == Err::<(), Error>(Error::RestoreChangedAuthority) && *final(self) == *old(self)
                } else {
                    &&& final(self).record@ == with_alias(was, g, a, alias@)
                    &&& readmits(was, final(self).record@)
                    &&& match observation(*old(clock), wall_ms, now) {
                        Err(e) => r == Err::<(), Error>(e),
                        Ok(effective) => if effective >= boundary_of(was.groups[g]) {
                            r == Err::<(), Error>(Error::ExpiredDuringRestoration)
                        } else {
                            r is Ok && final(self).group == g && final(self).alias == a + 1
                        },
                    }
                }
            }),
    {
        let g: usize = self.group;
        let a: usize = self.alias;
        let ghost was = self.record@;
        assert(was.groups[g as int] == self.record.groups@[g as int]@);
        assert(was.groups[g as int].provision.aliases[a as int] == self.record.groups@[g as int].provision.aliases@[a as int]@);
        if !alias.same_authority(&self.record.groups[g].provision.aliases[a]) {
            return Err(Error::RestoreChangedAuthority);
        }
        let boundary: u64 = self.boundary();
        let count: usize = self.record.groups[g].provision.aliases.len();
        let ghost av = alias@;
        let mut group = self.record.groups.remove(g);
        let ghost gv = group@;
        let _ = group.provision.aliases.remove(a);
        group.provision.aliases.insert(a, alias);
        proof {
            assert(group@.provision.aliases =~= gv.provision.aliases.update(a as int, av));
        }
        self.record.groups.insert(g, group);
        proof {
            assert(self.record@.groups =~= with_alias(was, g as int, a as int, av).groups);
            assert forall|i: int| 0 <= i < was.groups.len() implies readmits_group(
                #[trigger] was.groups[i],
                self.record@.groups[i],
            ) by {
                if i == g {
                    assert(self.record@.groups[i] == group@);
                }
            }
        }
        let effective: u64 = match clock.observe(wall_ms, now) {
            Ok(ms) => ms,
            Err(e) => {
                return Err(e);
            },
        };
        if effective >= boundary {
            return Err(Error::ExpiredDuringRestoration);
        }
        assert(a < count);
        self.alias = a + 1;
        Ok(())
    }
}

/// However many aliases are re-admitted, the record keeps all but its lease
/// operations and create paths.
pub proof fn readmission_keeps_authority(a: RecordView, b: RecordView, c: RecordView)
    requires
        readmits(a, b),
        readmits(b, c),
    ensures
        readmits(a, c),
{
    assert forall|i: int| 0 <= i < a.groups.len() implies readmits_group(#[trigger] a.groups[i], c.groups[i]) by {
        assert(readmits_group(a.groups[i], b.groups[i]));
        assert(readmits_group(b.groups[i], c.groups[i]));
        assert forall|j: int| 0 <= j < a.groups[i].provision.aliases.len() implies same_authority(
            #[trigger] a.groups[i].provision.aliases[j],
            c.groups[i].provision.aliases[j],
        ) by {
            assert(same_authority(a.groups[i].provision.aliases[j], b.groups[i].provision.aliases[j]));
            assert(same_authority(b.groups[i].provision.aliases[j], c.groups[i].provision.aliases[j]));
        }
    }
}

} // verus!
