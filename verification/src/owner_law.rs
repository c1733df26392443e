//! What holds of the owner's aliases: when they rotate, how long they may be used,
//! what a record of them says and what becomes of it.

use vstd::prelude::*;
use vstd::utf8::encode_utf8;
use crate::codec::{Codec, Protocol};
use crate::error::Error;
use crate::model::{is_zero, views, AliasContact, OwnedAlias, OwnedAliasView, RelayProvisionView, RelayTarget};
use crate::owner_aliases::{active_queues, alias_error, aliases_error, elapsed_ms, first_active, group_error, groups_error, held, ids_before, is_cleanup, limit_in, limited, limited_record, live_error, notes_budget, observation, public_values, queue_ids, record_error, renewal_of, restorable, role_count, spec_active_target, wires, GroupView, Limit, RecordView, RestoreClock, Role};
use crate::owner_restore::{begin_error, same_authority, seek, step_at, with_alias, RestoreStep};
use crate::owner_state::{absolute_time, active_group, all_within_origins, announceable, applied, apply_error, asks_clock, current_error, draining_group, draining_groups, expiry_of, last_origin, least_expiry, live_groups, live_record, moment, noted_due, origin_in, origin_view, origins_of, public_card, receive_until, rotates, staged_group, take_up, taken_up, unannounced_group, unspent, use_until, within_origins, DrainingContactAliases, DrainingView, OwnerState, RolesView};
use crate::profile::AliasLifecycleConfig;
use crate::table::{distinct, Table};
use crate::time::{ms_up, Instant};

verus! {

proof fn lemma_noted(st: OwnerState, n: nat, effective_ms: u64)
    requires
        n <= st.client_relay.aliases@.len(),
    ensures
        noted_due(st, n, effective_ms) <==> exists|i: int|
            0 <= i < n && (st.owner_clock.limits.lookup((#[trigger] st.client_relay.aliases@[i]).contact.queue_id@) matches Some(l)
                && l.role is Active && l.action_ms <= effective_ms),
    decreases n,
{
    if n > 0 {
        lemma_noted(st, (n - 1) as nat, effective_ms);
        let last = st.client_relay.aliases@[n - 1];
        if noted_due(st, n, effective_ms) && !noted_due(st, (n - 1) as nat, effective_ms) {
            assert(st.owner_clock.limits.lookup(last.contact.queue_id@) is Some);
        }
    }
}

/// Active aliases rotate once one of them has come to the boundary that was noted of
/// it as active, or once they are as old as aliases get; and not before, however
/// many boundaries are noted that lie ahead.
pub proof fn rotation_goes_by_boundary_and_age(st: OwnerState, timing: AliasLifecycleConfig, effective_ms: u64, now: Instant)
    ensures
        (exists|i: int|
            0 <= i < st.client_relay.aliases@.len() && (st.owner_clock.limits.lookup(
                (#[trigger] st.client_relay.aliases@[i]).contact.queue_id@,
            ) matches Some(l) && l.role is Active && l.action_ms <= effective_ms)) ==> rotates(st, timing, effective_ms, now),
        now.nanos >= st.contact_aliases_activated.nanos + timing.alias_ttl.nanos ==> rotates(st, timing, effective_ms, now),
        (forall|i: int|
            0 <= i < st.client_relay.aliases@.len() ==> (st.owner_clock.limits.lookup(
                (#[trigger] st.client_relay.aliases@[i]).contact.queue_id@,
            ) matches Some(l) ==> l.action_ms > effective_ms || !(l.role is Active))) && timing.alias_ttl.nanos > 0 && now.nanos
            < st.contact_aliases_activated.nanos + timing.alias_ttl.nanos ==> !rotates(st, timing, effective_ms, now),
{
    lemma_noted(st, st.client_relay.aliases@.len(), effective_ms);
}

/// What a clock answers is the later of the wall clock and of the time that has
/// passed since it started, with any part of a millisecond counted as a whole one.
/// It refuses readings that go back, and times that it cannot hold, and nothing else.
pub proof fn time_is_the_later_of_both(clock: RestoreClock, wall_ms: u64, now: Instant)
    requires
        clock.wf(),
    ensures
        observation(clock, wall_ms, now) matches Ok(effective) ==> {
            &&& effective >= wall_ms
            &&& (effective - clock.wall_start_ms) * 1_000_000 >= now.nanos - clock.start.nanos
            &&& effective == wall_ms || (effective - 1 - clock.wall_start_ms) * 1_000_000 < now.nanos - clock.start.nanos
        },
        observation(clock, wall_ms, now) is Ok <==> {
            &&& wall_ms >= clock.last_wall_ms
            &&& now.nanos >= clock.last_instant.nanos
            &&& now.nanos - clock.start.nanos <= (u64::MAX - clock.wall_start_ms) * 1_000_000
        },
        wall_ms < clock.last_wall_ms || now.nanos < clock.last_instant.nanos ==> observation(clock, wall_ms, now) == Err::<u64, Error>(
            Error::ClockRegressed,
        ),
        clock.observed(wall_ms, now).same_budget(clock),
        observation(clock, wall_ms, now) is Err ==> clock.observed(wall_ms, now) == clock,
        observation(clock, wall_ms, now) matches Ok(effective) ==> {
            let after = clock.observed(wall_ms, now);
            after.last_wall_ms == wall_ms && after.last_instant == now && after.last_effective_ms == effective && after.wf()
        },
{
    let elapsed = elapsed_ms(clock, now);
    if now.nanos >= clock.start.nanos {
        let d = (now.nanos - clock.start.nanos) as nat;
        assert(elapsed == ms_up(d));
    }
    if wall_ms >= clock.last_wall_ms && now.nanos >= clock.last_instant.nanos {
        let before = elapsed_ms(clock, clock.last_instant);
        assert(before <= elapsed);
    }
}

/// Any part of a millisecond counts as a whole one.
pub proof fn parts_count_as_whole(nanos: nat)
    ensures
        ms_up(nanos) * 1_000_000 >= nanos,
        nanos > 0 ==> (ms_up(nanos) - 1) * 1_000_000 < nanos,
        ms_up(0) == 0,
{
}

proof fn lemma_least(aliases: Seq<OwnedAliasView>, n: nat)
    requires
        1 <= n <= aliases.len(),
    ensures
        forall|i: int| 0 <= i < n ==> least_expiry(aliases, n) <= (#[trigger] aliases[i]).contact.expiry * 1000,
        exists|i: int| 0 <= i < n && least_expiry(aliases, n) == (#[trigger] aliases[i]).contact.expiry * 1000,
    decreases n,
{
    if n > 1 {
        let m = (n - 1) as nat;
        lemma_least(aliases, m);
        let i = choose|i: int| 0 <= i < m && least_expiry(aliases, m) == (#[trigger] aliases[i]).contact.expiry * 1000;
        assert(least_expiry(aliases, n) == aliases[i].contact.expiry * 1000 || least_expiry(aliases, n) == aliases[m as int].contact.expiry
            * 1000);
    } else {
        assert(least_expiry(aliases, n) == aliases[0].contact.expiry * 1000);
    }
}

/// A set of aliases ends with the first of its leases, told in milliseconds.
pub proof fn a_set_ends_with_its_first_lease(aliases: Seq<OwnedAliasView>)
    ensures
        expiry_of(aliases) matches Ok(end) ==> {
            &&& forall|i: int| 0 <= i < aliases.len() ==> end <= (#[trigger] aliases[i]).contact.expiry * 1000
            &&& exists|i: int| 0 <= i < aliases.len() && end == (#[trigger] aliases[i]).contact.expiry * 1000
        },
        expiry_of(aliases) is Ok <==> aliases.len() > 0 && forall|i: int|
            0 <= i < aliases.len() ==> (#[trigger] aliases[i]).contact.expiry * 1000 <= u64::MAX,
        aliases.len() == 0 ==> expiry_of(aliases) == Err::<u64, Error>(Error::AliasSetEmpty),
        aliases.len() > 0 && expiry_of(aliases) is Err ==> expiry_of(aliases) == Err::<u64, Error>(Error::ExpiryOverflow),
{
    if aliases.len() > 0 {
        lemma_least(aliases, aliases.len());
    }
}

/// A moment in effective time is never later than the moment itself: what lies ahead
/// comes a part of a millisecond early, and what is past is a part longer past.
pub proof fn moments_are_never_told_late(deadline: Instant, now: Instant, effective_ms: u64)
    ensures
        absolute_time(deadline, now, effective_ms) matches Ok(t) ==> {
            &&& (t - effective_ms) * 1_000_000 <= deadline.nanos - now.nanos
            &&& deadline.nanos - now.nanos < (t - effective_ms + 1) * 1_000_000
        },
        absolute_time(deadline, now, effective_ms) is Err ==> {
            ||| deadline.nanos - now.nanos > (u64::MAX - effective_ms) * 1_000_000
            ||| now.nanos - deadline.nanos > effective_ms * 1_000_000
        },
{
}

/// A time that is kept in effective milliseconds comes back as the moment that is as
/// far ahead, and one that is past as the present moment.
pub proof fn kept_times_come_back(ms: u64, now: Instant, effective_ms: u64)
    ensures
        moment(ms, now, effective_ms) matches Some(t) ==> {
            &&& ms >= effective_ms ==> t.nanos - now.nanos == (ms - effective_ms) * 1_000_000
            &&& ms < effective_ms ==> t == now
        },
        moment(ms, now, effective_ms) is None ==> ms > effective_ms && now.nanos + (ms - effective_ms) * 1_000_000 > u128::MAX,
{
}

/// An alias is used no longer than its lease, nor than noted of its queue, and as
/// long as both allow. One that is being given up receives no longer than was noted
/// of that either.
pub proof fn aliases_are_used_within_their_budget(clock: RestoreClock, contact: AliasContact)
    requires
        contact.expiry * 1000 <= u64::MAX,
    ensures
        use_until(clock, contact) <= contact.expiry * 1000,
        receive_until(clock, contact) <= use_until(clock, contact),
        clock.limits.lookup(contact.queue_id@) is None ==> use_until(clock, contact) == contact.expiry * 1000 && receive_until(
            clock,
            contact,
        ) == contact.expiry * 1000,
        clock.limits.lookup(contact.queue_id@) matches Some(l) ==> {
            &&& use_until(clock, contact) <= l.deadline_ms
            &&& use_until(clock, contact) == contact.expiry * 1000 || use_until(clock, contact) == l.deadline_ms
            &&& (l.role is Active || l.role is Staged ==> receive_until(clock, contact) == use_until(clock, contact))
            &&& (l.role is Unannounced || l.role is Draining ==> receive_until(clock, contact) <= l.receive_until_ms && (receive_until(
                clock,
                contact,
            ) == use_until(clock, contact) || receive_until(clock, contact) == l.receive_until_ms))
        },
{
}

proof fn lemma_asks(st: OwnerState, n: nat)
    requires
        n <= st.client_relay.aliases@.len(),
    ensures
        asks_clock(st, n) <==> exists|i: int|
            0 <= i < n && (!st.routed || st.public_aliases@.contains((#[trigger] st.client_relay.aliases@[i]).contact)),
    decreases n,
{
    if n > 0 {
        lemma_asks(st, (n - 1) as nat);
        let last = st.client_relay.aliases@[n - 1];
        if asks_clock(st, n) && !asks_clock(st, (n - 1) as nat) {
            assert(!st.routed || st.public_aliases@.contains(st.client_relay.aliases@[n - 1].contact));
        }
    }
}

proof fn lemma_current(st: OwnerState, n: nat, wall_ms: u64, now: Instant)
    requires
        n <= st.client_relay.aliases@.len(),
    ensures
        current_error(st, n, wall_ms, now) is None <==> forall|i: int|
            0 <= i < n && (!st.routed || st.public_aliases@.contains((#[trigger] st.client_relay.aliases@[i]).contact)) ==> {
                let contact = st.client_relay.aliases@[i].contact;
                &&& observation(st.owner_clock, wall_ms, now) is Ok
                &&& contact.expiry * 1000 <= u64::MAX
                &&& contact.expiry * 1000 > observation(st.owner_clock, wall_ms, now)->Ok_0
                &&& st.owner_clock.limits.lookup(contact.queue_id@) matches Some(l) ==> l.deadline_ms > observation(
                    st.owner_clock,
                    wall_ms,
                    now,
                )->Ok_0
            },
    decreases n,
{
    if n > 0 {
        lemma_current(st, (n - 1) as nat, wall_ms, now);
        let last = st.client_relay.aliases@[n - 1];
        assert(last == st.client_relay.aliases@[n - 1]);
    }
}

/// The card is in order exactly where every alias on it has time left, by its lease
/// and by what was noted of its queue. Without routing every active alias counts as
/// being on it. The clock is asked only where some alias counts.
pub proof fn a_card_is_in_order_while_all_of_it_is(st: OwnerState, wall_ms: u64, now: Instant)
    ensures
        ({
            let n = st.client_relay.aliases@.len();
            &&& current_error(st, n, wall_ms, now) is None <==> forall|i: int|
                0 <= i < n && (!st.routed || st.public_aliases@.contains((#[trigger] st.client_relay.aliases@[i]).contact)) ==> {
                    let contact = st.client_relay.aliases@[i].contact;
                    &&& observation(st.owner_clock, wall_ms, now) is Ok
                    &&& contact.expiry * 1000 <= u64::MAX
                    &&& contact.expiry * 1000 > observation(st.owner_clock, wall_ms, now)->Ok_0
                    &&& st.owner_clock.limits.lookup(contact.queue_id@) matches Some(l) ==> l.deadline_ms > observation(
                        st.owner_clock,
                        wall_ms,
                        now,
                    )->Ok_0
                }
            &&& asks_clock(st, n) <==> exists|i: int|
                0 <= i < n && (!st.routed || st.public_aliases@.contains((#[trigger] st.client_relay.aliases@[i]).contact))
        }),
{
    lemma_current(st, st.client_relay.aliases@.len(), wall_ms, now);
    lemma_asks(st, st.client_relay.aliases@.len());
}

proof fn lemma_published(aliases: Seq<OwnedAliasView>, n: nat, now_unix: u64, own: Seq<RelayTarget>, clock: RestoreClock, c: AliasContact)
    requires
        n <= aliases.len(),
    ensures
        unspent(aliases, n, clock).contains(c) <==> (clock.limits.lookup(c.queue_id@) matches Some(l) ==> l.deadline_ms
            > clock.last_effective_ms) && exists|i: int| 0 <= i < n && (#[trigger] aliases[i]).contact == c,
        announceable(aliases, n, now_unix, own, clock).contains(c) <==> {
            &&& c.expiry > now_unix
            &&& !own.contains(c.target)
            &&& (clock.limits.lookup(c.queue_id@) matches Some(l) ==> l.deadline_ms > clock.last_effective_ms)
            &&& exists|i: int| 0 <= i < n && (#[trigger] aliases[i]).contact == c
        },
    decreases n,
{
    if n > 0 {
        let m = (n - 1) as nat;
        lemma_published(aliases, m, now_unix, own, clock, c);
        let last = aliases[m as int].contact;
        let a = unspent(aliases, m, clock);
        let b = unspent(aliases, n, clock);
        if a.contains(c) {
            assert(b[a.index_of(c)] == c);
        }
        if b.len() > a.len() {
            assert(b[a.len() as int] == last);
        }
        if b.contains(c) && b.index_of(c) < a.len() {
            assert(a[b.index_of(c)] == c);
        }
        let d = announceable(aliases, m, now_unix, own, clock);
        let e = announceable(aliases, n, now_unix, own, clock);
        if d.contains(c) {
            assert(e[d.index_of(c)] == c);
        }
        if e.len() > d.len() {
            assert(e[d.len() as int] == last);
        }
        if e.contains(c) && e.index_of(c) < d.len() {
            assert(d[e.index_of(c)] == c);
        }
        if last == c {
            assert(aliases[m as int].contact == c);
        }
    }
}

/// What is published of active aliases is, for a node that finds its relays itself,
/// exactly every contact that has time left by its lease and its noted budget and is
/// at the relay of another; and for any other node what it published before.
pub proof fn published_contacts_can_be_reached(
    active: Seq<OwnedAliasView>,
    now_unix: u64,
    own: Seq<RelayTarget>,
    clock: RestoreClock,
    kept: Seq<AliasContact>,
    c: AliasContact,
)
    ensures
        public_card(active, true, now_unix, own, clock, kept).contains(c) <==> {
            &&& exists|i: int| 0 <= i < active.len() && (#[trigger] active[i]).contact == c
            &&& c.expiry > now_unix
            &&& !own.contains(c.target)
            &&& (clock.limits.lookup(c.queue_id@) matches Some(l) ==> l.deadline_ms > clock.last_effective_ms)
        },
        public_card(active, false, now_unix, own, clock, kept) == kept,
        unspent(active, active.len(), clock).contains(c) <==> {
            &&& exists|i: int| 0 <= i < active.len() && (#[trigger] active[i]).contact == c
            &&& (clock.limits.lookup(c.queue_id@) matches Some(l) ==> l.deadline_ms > clock.last_effective_ms)
        },
{
    lemma_published(active, active.len(), now_unix, own, clock, c);
}

/// Whether an alias of a group, with its original operation, is bound as it must be:
/// both operations are in order, the original speaks for the same queue with the same
/// authority, the alias has its target, its queue and its capabilities, and neither
/// lease ends before the group does.
pub open spec fn alias_fits(g: GroupView, j: int, renewals: Map<Seq<u8>, Seq<u8>>, target: RelayTarget, codec: Codec, p: Protocol) -> bool {
    let a = g.provision.aliases[j];
    let o = g.origins[j];
    let renewal = if renewals.dom().contains(a.contact.queue_id@) {
        Some(renewals[a.contact.queue_id@])
    } else {
        None
    };
    &&& codec.retains(o)
    &&& codec.renews(OwnedAliasView { contact: AliasContact { expiry: a.contact.expiry, ..o.contact }, ..o }, renewal)
    &&& codec.renews(a, renewal)
    &&& o.contact.target == a.contact.target
    &&& o.contact.queue_id == a.contact.queue_id
    &&& o.contact.epoch == a.contact.epoch
    &&& o.contact.push_cap == a.contact.push_cap
    &&& o.capabilities == a.capabilities
    &&& o.limits == a.limits
    &&& g.role is Active ==> a.contact.target == target
    &&& a.contact.target.address.port != 0
    &&& !a.contact.target.address.ip.spec_unspecified()
    &&& !is_zero(a.contact.target.relay_service_id)
    &&& !is_zero(a.contact.queue_id)
    &&& a.contact.epoch != 0
    &&& a.contact.push_cap == a.capabilities.push
    &&& !is_zero(a.capabilities.push)
    &&& !is_zero(a.capabilities.sub)
    &&& !is_zero(a.capabilities.admin)
    &&& a.limits.max_queue_cells > 0
    &&& a.limits.max_queue_bytes > 0
    &&& 0 < a.create_path.len()
    &&& encode_utf8(a.create_path).len() <= 256
    &&& a.lease_create.raw_type == p.relay_sub
    &&& a.lease_create.payload.len() == p.lease_create_len
    &&& g.deadline_ms <= a.contact.expiry * 1000 <= u64::MAX
    &&& g.deadline_ms <= o.contact.expiry * 1000 <= u64::MAX
}

/// Whether a group has the aliases and the times of its role: two aliases while it is
/// in use, and for each its original operation; a path and a key; and an end, before
/// which comes what is to be done with it, before which its reception ends.
pub open spec fn group_fits(g: GroupView, renewals: Map<Seq<u8>, Seq<u8>>, target: RelayTarget, codec: Codec, p: Protocol) -> bool {
    let aliases = g.provision.aliases;
    &&& 1 <= aliases.len() <= 2
    &&& g.role is Active || g.role is Staged ==> aliases.len() == 2
    &&& g.origins.len() == aliases.len()
    &&& 0 < g.provision.frwd_path.len()
    &&& encode_utf8(g.provision.frwd_path).len() <= 256
    &&& !is_zero(g.provision.hop_key)
    &&& g.deadline_ms > 0
    &&& g.receive_until_ms <= g.action_ms <= g.deadline_ms
    &&& g.role is Active ==> g.action_ms > 0 && g.receive_until_ms == 0
    &&& g.role is Staged ==> g.action_ms == 0
    &&& g.role is Unannounced || g.role is Draining ==> g.receive_until_ms > 0
    &&& forall|j: int| 0 <= j < aliases.len() ==> (#[trigger] aliases[j]).contact.queue_id != aliases[j].contact.push_cap
    &&& forall|j: int, k: int|
        0 <= j < k < aliases.len() ==> {
            &&& (#[trigger] aliases[j]).contact.queue_id != (#[trigger] aliases[k]).contact.queue_id
            &&& aliases[j].contact.queue_id != aliases[k].contact.push_cap
            &&& aliases[j].contact.push_cap != aliases[k].contact.queue_id
            &&& aliases[j].contact.push_cap != aliases[k].contact.push_cap
        }
    &&& forall|j: int| 0 <= j < aliases.len() ==> #[trigger] alias_fits(g, j, renewals, target, codec, p)
}

proof fn lemma_public_values(g: GroupView)
    ensures
        distinct(public_values(g)) <==> {
            let aliases = g.provision.aliases;
            &&& forall|j: int| 0 <= j < aliases.len() ==> (#[trigger] aliases[j]).contact.queue_id != aliases[j].contact.push_cap
            &&& forall|j: int, k: int|
                0 <= j < k < aliases.len() ==> {
                    &&& (#[trigger] aliases[j]).contact.queue_id != (#[trigger] aliases[k]).contact.queue_id
                    &&& aliases[j].contact.queue_id != aliases[k].contact.push_cap
                    &&& aliases[j].contact.push_cap != aliases[k].contact.queue_id
                    &&& aliases[j].contact.push_cap != aliases[k].contact.push_cap
                }
        },
{
    let aliases = g.provision.aliases;
    let v = public_values(g);
    if distinct(v) {
        assert forall|j: int| 0 <= j < aliases.len() implies (#[trigger] aliases[j]).contact.queue_id != aliases[j].contact.push_cap by {
            assert(v[2 * j] == aliases[j].contact.queue_id);
            assert(v[2 * j + 1] == aliases[j].contact.push_cap);
        }
        assert forall|j: int, k: int| 0 <= j < k < aliases.len() implies {
            &&& (#[trigger] aliases[j]).contact.queue_id != (#[trigger] aliases[k]).contact.queue_id
            &&& aliases[j].contact.queue_id != aliases[k].contact.push_cap
            &&& aliases[j].contact.push_cap != aliases[k].contact.queue_id
            &&& aliases[j].contact.push_cap != aliases[k].contact.push_cap
        } by {
            assert(v[2 * j] == aliases[j].contact.queue_id);
            assert(v[2 * j + 1] == aliases[j].contact.push_cap);
            assert(v[2 * k] == aliases[k].contact.queue_id);
            assert(v[2 * k + 1] == aliases[k].contact.push_cap);
        }
    } else {
        let (x, y) = choose|x: int, y: int| 0 <= x < y < v.len() && v[x] == v[y];
        let j = x / 2;
        let k = y / 2;
        assert(0 <= j <= k < aliases.len());
        let a = aliases[j];
        let b = aliases[k];
        if j == k {
            assert(x % 2 == 0 && y % 2 == 1);
        }
    }
}

proof fn lemma_ids(groups: Seq<GroupView>, n: nat, q: [u8; 32])
    requires
        n <= groups.len(),
    ensures
        ids_before(groups, n).contains(q) <==> exists|i: int, j: int|
            0 <= i < n && 0 <= j < groups[i].provision.aliases.len() && (#[trigger] groups[i].provision.aliases[j]).contact.queue_id == q,
    decreases n,
{
    if n > 0 {
        let m = (n - 1) as nat;
        lemma_ids(groups, m, q);
        let before = ids_before(groups, m);
        let last = queue_ids(groups[m as int]);
        let all = ids_before(groups, n);
        if before.contains(q) {
            assert(all[before.index_of(q)] == q);
        }
        if last.contains(q) {
            let j = last.index_of(q);
            assert(all[before.len() + j] == q);
            assert(groups[m as int].provision.aliases[j].contact.queue_id == q);
        }
        if all.contains(q) {
            let k = all.index_of(q);
            if k < before.len() {
                assert(before[k] == q);
            } else {
                assert(last[k - before.len()] == q);
            }
        }
        if exists|i: int, j: int|
            0 <= i < n && 0 <= j < groups[i].provision.aliases.len() && (#[trigger] groups[i].provision.aliases[j]).contact.queue_id == q {
            let (i, j) = choose|i: int, j: int|
                0 <= i < n && 0 <= j < groups[i].provision.aliases.len() && (#[trigger] groups[i].provision.aliases[j]).contact.queue_id == q;
            if i == m {
                assert(last[j] == q);
                assert(last.contains(q));
            }
        }
    }
}

/// Whether the queue of an alias was seen: in a group before, or before it in its own.
pub open spec fn seen_before(groups: Seq<GroupView>, i: int, j: int) -> bool {
    ||| exists|x: int, y: int|
        0 <= x < i && 0 <= y < groups[x].provision.aliases.len() && (#[trigger] groups[x].provision.aliases[y]).contact.queue_id
            == groups[i].provision.aliases[j].contact.queue_id
    ||| exists|y: int|
        0 <= y < j && (#[trigger] groups[i].provision.aliases[y]).contact.queue_id == groups[i].provision.aliases[j].contact.queue_id
}

proof fn lemma_seen(groups: Seq<GroupView>, i: int, j: int)
    requires
        0 <= i < groups.len(),
        0 <= j < groups[i].provision.aliases.len(),
    ensures
        (ids_before(groups, i as nat) + queue_ids(groups[i]).take(j)).contains(groups[i].provision.aliases[j].contact.queue_id)
            <==> seen_before(groups, i, j),
{
    let q = groups[i].provision.aliases[j].contact.queue_id;
    lemma_ids(groups, i as nat, q);
    let a = ids_before(groups, i as nat);
    let b = queue_ids(groups[i]).take(j);
    let all = a + b;
    if a.contains(q) {
        assert(all[a.index_of(q)] == q);
    }
    if exists|y: int| 0 <= y < j && (#[trigger] groups[i].provision.aliases[y]).contact.queue_id == q {
        let y = choose|y: int| 0 <= y < j && (#[trigger] groups[i].provision.aliases[y]).contact.queue_id == q;
        assert(b[y] == q);
        assert(all[a.len() + y] == q);
    }
    if all.contains(q) {
        let k = all.index_of(q);
        if k < a.len() {
            assert(a[k] == q);
        } else {
            assert(b[k - a.len()] == q);
            assert(groups[i].provision.aliases[k - a.len()].contact.queue_id == q);
        }
    }
}

proof fn lemma_alias_error(g: GroupView, j: int, renewals: Map<Seq<u8>, Seq<u8>>, target: RelayTarget, seen: bool, codec: Codec, p: Protocol)
    ensures
        alias_error(
            g,
            g.provision.aliases[j],
            g.origins[j],
            renewal_of(renewals, g.provision.aliases[j].contact.queue_id),
            target,
            seen,
            codec,
            p,
        ) is None <==> !seen && alias_fits(g, j, renewals, target, codec, p),
{
}

proof fn lemma_aliases_error(r: RecordView, i: int, n: nat, target: RelayTarget, codec: Codec, p: Protocol)
    requires
        0 <= i < r.groups.len(),
        n <= r.groups[i].provision.aliases.len(),
    ensures
        aliases_error(r.groups[i], n, r.renewals, target, ids_before(r.groups, i as nat), codec, p) is None <==> forall|j: int|
            0 <= j < n ==> #[trigger] alias_fits(r.groups[i], j, r.renewals, target, codec, p) && !seen_before(r.groups, i, j),
    decreases n,
{
    if n > 0 {
        let m = (n - 1) as nat;
        lemma_aliases_error(r, i, m, target, codec, p);
        let g = r.groups[i];
        lemma_seen(r.groups, i, m as int);
        let seen = (ids_before(r.groups, i as nat) + queue_ids(g).take(m as int)).contains(g.provision.aliases[m as int].contact.queue_id);
        lemma_alias_error(g, m as int, r.renewals, target, seen, codec, p);
        let before = ids_before(r.groups, i as nat);
        let here = alias_fits(g, m as int, r.renewals, target, codec, p) && !seen_before(r.groups, i, m as int);
        assert(aliases_error(g, n, r.renewals, target, before, codec, p) is None <==> aliases_error(
            g,
            m,
            r.renewals,
            target,
            before,
            codec,
            p,
        ) is None && here);
        if aliases_error(g, n, r.renewals, target, before, codec, p) is None {
            assert forall|j: int| 0 <= j < n implies #[trigger] alias_fits(g, j, r.renewals, target, codec, p) && !seen_before(r.groups, i, j) by {
                if j < m {
                    assert(alias_fits(g, j, r.renewals, target, codec, p));
                }
            }
        }
    }
}

proof fn lemma_group_error(r: RecordView, i: int, target: RelayTarget, codec: Codec, p: Protocol)
    requires
        0 <= i < r.groups.len(),
    ensures
        group_error(r.groups[i], r.renewals, target, ids_before(r.groups, i as nat), codec, p) is None <==> group_fits(
            r.groups[i],
            r.renewals,
            target,
            codec,
            p,
        ) && forall|j: int| 0 <= j < r.groups[i].provision.aliases.len() ==> !#[trigger] seen_before(r.groups, i, j),
{
    let g = r.groups[i];
    lemma_public_values(g);
    lemma_aliases_error(r, i, g.provision.aliases.len(), target, codec, p);
    if group_error(g, r.renewals, target, ids_before(r.groups, i as nat), codec, p) is None {
        assert forall|j: int| 0 <= j < g.provision.aliases.len() implies !#[trigger] seen_before(r.groups, i, j) by {
            assert(alias_fits(g, j, r.renewals, target, codec, p));
        }
    }
}

proof fn lemma_groups_error(r: RecordView, n: nat, target: RelayTarget, codec: Codec, p: Protocol)
    requires
        n <= r.groups.len(),
    ensures
        groups_error(r, n, target, codec, p) is None <==> forall|i: int|
            0 <= i < n ==> group_fits(#[trigger] r.groups[i], r.renewals, target, codec, p) && forall|j: int|
                0 <= j < r.groups[i].provision.aliases.len() ==> !#[trigger] seen_before(r.groups, i, j),
    decreases n,
{
    if n > 0 {
        let m = (n - 1) as nat;
        lemma_groups_error(r, m, target, codec, p);
        lemma_group_error(r, m as int, target, codec, p);
        let g = r.groups[m as int];
        assert(g == r.groups[m as int]);
    }
}

proof fn lemma_role_count(groups: Seq<GroupView>, role: Role, n: nat)
    requires
        n <= groups.len(),
    ensures
        role_count(groups, role, n) == 0 <==> forall|i: int| 0 <= i < n ==> (#[trigger] groups[i]).role != role,
        role_count(groups, role, n) <= 1 <==> forall|i: int, j: int|
            0 <= i < j < n ==> !((#[trigger] groups[i]).role == role && (#[trigger] groups[j]).role == role),
    decreases n,
{
    if n > 0 {
        let m = (n - 1) as nat;
        lemma_role_count(groups, role, m);
        let last = groups[m as int];
        if role_count(groups, role, m) != 0 && last.role == role {
            let i = choose|i: int| 0 <= i < m && (#[trigger] groups[i]).role == role;
            assert(groups[i].role == role && groups[m as int].role == role);
        }
    }
}

/// A record is in order exactly where it was captured, after its aliases were
/// activated; has one to sixteen groups, one of them active and at most one each
/// staged and unannounced; every group fits its role; no queue occurs twice; and
/// every renewal is of one of the queues.
#[verifier::rlimit(40)]
pub proof fn records_in_order(r: RecordView, target: RelayTarget, codec: Codec, p: Protocol)
    ensures
        record_error(r, target, codec, p) is None <==> {
            &&& 0 < r.captured_ms
            &&& r.activated_ms <= r.captured_ms
            &&& 1 <= r.groups.len() <= 16
            &&& forall|i: int|
                0 <= i < r.groups.len() ==> group_fits(#[trigger] r.groups[i], r.renewals, target, codec, p) && forall|j: int|
                    0 <= j < r.groups[i].provision.aliases.len() ==> !#[trigger] seen_before(r.groups, i, j)
            &&& forall|k: Seq<u8>| #[trigger]
                r.renewals.dom().contains(k) ==> exists|i: int, j: int|
                    0 <= i < r.groups.len() && 0 <= j < r.groups[i].provision.aliases.len() && (#[trigger] r.groups[i].provision.aliases[j]).contact.queue_id@
                        == k
            &&& exists|i: int| 0 <= i < r.groups.len() && (#[trigger] r.groups[i]).role is Active
            &&& forall|i: int, j: int|
                0 <= i < j < r.groups.len() ==> (#[trigger] r.groups[i]).role != (#[trigger] r.groups[j]).role || r.groups[i].role is Draining
        },
{
    let n = r.groups.len();
    lemma_groups_error(r, n, target, codec, p);
    lemma_role_count(r.groups, Role::Active, n);
    lemma_role_count(r.groups, Role::Staged, n);
    lemma_role_count(r.groups, Role::Unannounced, n);
    let queues = ids_before(r.groups, n);
    assert forall|k: Seq<u8>| views(queues).contains(k) <==> exists|i: int, j: int|
        0 <= i < r.groups.len() && 0 <= j < r.groups[i].provision.aliases.len() && (#[trigger] r.groups[i].provision.aliases[j]).contact.queue_id@
            == k by {
        if views(queues).contains(k) {
            let x = views(queues).index_of(k);
            lemma_ids(r.groups, n, queues[x]);
            assert(queues.contains(queues[x]));
            let (i, j) = choose|i: int, j: int|
                0 <= i < n && 0 <= j < r.groups[i].provision.aliases.len() && (#[trigger] r.groups[i].provision.aliases[j]).contact.queue_id
                    == queues[x];
            assert(r.groups[i].provision.aliases[j].contact.queue_id@ == k);
        }
        if exists|i: int, j: int|
            0 <= i < r.groups.len() && 0 <= j < r.groups[i].provision.aliases.len() && (#[trigger] r.groups[i].provision.aliases[j]).contact.queue_id@
                == k {
            let (i, j) = choose|i: int, j: int|
                0 <= i < r.groups.len() && 0 <= j < r.groups[i].provision.aliases.len() && (#[trigger] r.groups[i].provision.aliases[j]).contact.queue_id@
                    == k;
            let q = r.groups[i].provision.aliases[j].contact.queue_id;
            lemma_ids(r.groups, n, q);
            assert(queues.contains(q));
            assert(views(queues)[queues.index_of(q)] == k);
        }
    }
    if record_error(r, target, codec, p) is None {
        let i = choose|i: int| 0 <= i < n && (#[trigger] r.groups[i]).role == Role::Active;
        assert(r.groups[i].role is Active);
    }
}

proof fn lemma_limit_in(groups: Seq<GroupView>, n: nat, queue: Seq<u8>)
    requires
        n <= groups.len(),
    ensures
        limit_in(groups, n, queue) is None <==> forall|i: int| 0 <= i < n ==> !views(queue_ids(#[trigger] groups[i])).contains(queue),
        limit_in(groups, n, queue) matches Some(l) ==> exists|i: int|
            0 <= i < n && views(queue_ids(#[trigger] groups[i])).contains(queue) && l.role == groups[i].role && l.deadline_ms
                == groups[i].deadline_ms && l.action_ms == groups[i].action_ms && l.receive_until_ms == groups[i].receive_until_ms && forall|
                j: int,
            |
                i < j < n ==> !views(queue_ids(#[trigger] groups[j])).contains(queue),
    decreases n,
{
    if n > 0 {
        let m = (n - 1) as nat;
        lemma_limit_in(groups, m, queue);
        let g = groups[m as int];
        if views(queue_ids(g)).contains(queue) {
            assert(views(queue_ids(groups[m as int])).contains(queue));
        } else if limit_in(groups, m, queue) is Some {
            let l = limit_in(groups, m, queue)->0;
            let i = choose|i: int|
                0 <= i < m && views(queue_ids(#[trigger] groups[i])).contains(queue) && l.role == groups[i].role && l.deadline_ms
                    == groups[i].deadline_ms && l.action_ms == groups[i].action_ms && l.receive_until_ms == groups[i].receive_until_ms
                    && forall|j: int| i < j < m ==> !views(queue_ids(#[trigger] groups[j])).contains(queue);
            assert(views(queue_ids(groups[i])).contains(queue));
        }
    }
}

/// What is noted of a queue is the role and the times of the last group that has it,
/// and nothing where no group does.
pub proof fn budgets_are_noted_as_recorded(clock: RestoreClock, r: RecordView, queue: Seq<u8>)
    requires
        notes_budget(clock, r),
    ensures
        clock.limits.lookup(queue) is None <==> forall|i: int|
            0 <= i < r.groups.len() ==> !views(queue_ids(#[trigger] r.groups[i])).contains(queue),
        clock.limits.lookup(queue) matches Some(l) ==> exists|i: int|
            0 <= i < r.groups.len() && views(queue_ids(#[trigger] r.groups[i])).contains(queue) && l.role == r.groups[i].role && l.deadline_ms
                == r.groups[i].deadline_ms && l.action_ms == r.groups[i].action_ms && l.receive_until_ms == r.groups[i].receive_until_ms
                && forall|j: int| i < j < r.groups.len() ==> !views(queue_ids(#[trigger] r.groups[j])).contains(queue),
        clock.activation matches Some((_, at)) && at == r.activated_ms,
{
    lemma_limit_in(r.groups, r.groups.len(), queue);
}

proof fn lemma_held_exact(g: GroupView, limits: Table<[u8; 32], Limit>, n: nat)
    requires
        n <= g.provision.aliases.len(),
    ensures
        ({
            let h = held(g, limits, n);
            &&& h.role == g.role
            &&& h.deadline_ms == g.deadline_ms || exists|i: int|
                0 <= i < n && (limits.lookup((#[trigger] g.provision.aliases[i]).contact.queue_id@) matches Some(l) && l.deadline_ms
                    == h.deadline_ms)
            &&& h.action_ms == g.action_ms || exists|i: int|
                0 <= i < n && (limits.lookup((#[trigger] g.provision.aliases[i]).contact.queue_id@) matches Some(l) && l.action_ms == h.action_ms
                    && l.role is Active)
            &&& h.action_ms != g.action_ms ==> g.role is Active
            &&& h.receive_until_ms == g.receive_until_ms || exists|i: int|
                0 <= i < n && (limits.lookup((#[trigger] g.provision.aliases[i]).contact.queue_id@) matches Some(l) && l.receive_until_ms
                    == h.receive_until_ms && is_cleanup(l.role))
            &&& h.receive_until_ms != g.receive_until_ms ==> is_cleanup(g.role)
        }),
    decreases n,
{
    if n > 0 {
        let m = (n - 1) as nat;
        lemma_held_exact(g, limits, m);
        let a = g.provision.aliases[m as int];
        let before = held(g, limits, m);
        let h = held(g, limits, n);
        let l = limits.lookup(a.contact.queue_id@);
        if h.deadline_ms == before.deadline_ms && before.deadline_ms != g.deadline_ms {
            let i = choose|i: int|
                0 <= i < m && (limits.lookup((#[trigger] g.provision.aliases[i]).contact.queue_id@) matches Some(l) && l.deadline_ms
                    == before.deadline_ms);
            assert(limits.lookup(g.provision.aliases[i].contact.queue_id@) is Some);
        }
        if h.action_ms == before.action_ms && before.action_ms != g.action_ms {
            let i = choose|i: int|
                0 <= i < m && (limits.lookup((#[trigger] g.provision.aliases[i]).contact.queue_id@) matches Some(l) && l.action_ms
                    == before.action_ms && l.role is Active);
            assert(limits.lookup(g.provision.aliases[i].contact.queue_id@) is Some);
        }
        if h.receive_until_ms == before.receive_until_ms && before.receive_until_ms != g.receive_until_ms {
            let i = choose|i: int|
                0 <= i < m && (limits.lookup((#[trigger] g.provision.aliases[i]).contact.queue_id@) matches Some(l) && l.receive_until_ms
                    == before.receive_until_ms && is_cleanup(l.role));
            assert(limits.lookup(g.provision.aliases[i].contact.queue_id@) is Some);
        }
        assert(limits.lookup(g.provision.aliases[m as int].contact.queue_id@) == l);
    }
}

/// A group keeps all the time that the budgets of its queues leave it: its end is its
/// own or one that was noted, and what is to be done comes as late as its end, its own
/// time and what was noted allow. Where nothing is noted of its queues, nothing
/// changes but for times that come after its end.
pub proof fn budgets_take_no_more_than_noted(g: GroupView, limits: Table<[u8; 32], Limit>)
    ensures
        ({
            let l = limited(g, limits);
            &&& l.deadline_ms == g.deadline_ms || exists|i: int|
                0 <= i < g.provision.aliases.len() && (limits.lookup((#[trigger] g.provision.aliases[i]).contact.queue_id@) matches Some(x)
                    && x.deadline_ms == l.deadline_ms)
            &&& l.action_ms == g.action_ms || l.action_ms == l.deadline_ms || exists|i: int|
                0 <= i < g.provision.aliases.len() && (limits.lookup((#[trigger] g.provision.aliases[i]).contact.queue_id@) matches Some(x)
                    && x.action_ms == l.action_ms && x.role is Active)
            &&& l.receive_until_ms == g.receive_until_ms || l.receive_until_ms == l.action_ms || exists|i: int|
                0 <= i < g.provision.aliases.len() && (limits.lookup((#[trigger] g.provision.aliases[i]).contact.queue_id@) matches Some(x)
                    && x.receive_until_ms == l.receive_until_ms && is_cleanup(x.role))
            &&& (forall|i: int|
                0 <= i < g.provision.aliases.len() ==> limits.lookup((#[trigger] g.provision.aliases[i]).contact.queue_id@) is None)
                && g.receive_until_ms <= g.action_ms <= g.deadline_ms ==> l == g
        }),
{
    lemma_held_exact(g, limits, g.provision.aliases.len());
    if forall|i: int| 0 <= i < g.provision.aliases.len() ==> limits.lookup((#[trigger] g.provision.aliases[i]).contact.queue_id@) is None {
        lemma_held_nothing(g, limits, g.provision.aliases.len());
    }
}

proof fn lemma_held_nothing(g: GroupView, limits: Table<[u8; 32], Limit>, n: nat)
    requires
        n <= g.provision.aliases.len(),
        forall|i: int| 0 <= i < g.provision.aliases.len() ==> limits.lookup((#[trigger] g.provision.aliases[i]).contact.queue_id@) is None,
    ensures
        held(g, limits, n) == g,
    decreases n,
{
    if n > 0 {
        lemma_held_nothing(g, limits, (n - 1) as nat);
        assert(limits.lookup(g.provision.aliases[n - 1].contact.queue_id@) is None);
    }
}

proof fn lemma_first_active(groups: Seq<GroupView>, n: nat)
    requires
        n <= groups.len(),
    ensures
        0 <= first_active(groups, n) <= n,
        first_active(groups, n) < n ==> groups[first_active(groups, n)].role is Active,
        forall|i: int| 0 <= i < first_active(groups, n) ==> !((#[trigger] groups[i]).role is Active),
    decreases n,
{
    if n > 0 {
        lemma_first_active(groups, (n - 1) as nat);
    }
}

/// The relay of a record is that of the first alias of its active group, its queues are
/// those of that group, and when they were activated is as the record says, or earlier
/// where that was noted of the same queues.
pub proof fn the_active_group_speaks_for_the_record(r: RecordView, i: int, clock: RestoreClock)
    requires
        0 <= i < r.groups.len(),
        r.groups[i].role is Active,
        forall|j: int| 0 <= j < i ==> !((#[trigger] r.groups[j]).role is Active),
    ensures
        r.groups[i].provision.aliases.len() > 0 ==> spec_active_target(r.groups, r.groups.len()) == Some(
            r.groups[i].provision.aliases[0].contact.target,
        ),
        r.groups[i].provision.aliases.len() == 0 ==> spec_active_target(r.groups, r.groups.len()) is None,
        active_queues(r.groups).len() == r.groups[i].provision.aliases.len(),
        forall|j: int|
            0 <= j < r.groups[i].provision.aliases.len() ==> #[trigger] active_queues(r.groups)[j]
                == r.groups[i].provision.aliases[j].contact.queue_id,
        limited_record(r, clock).activated_ms <= r.activated_ms,
        clock.activation is None ==> limited_record(r, clock).activated_ms == r.activated_ms,
        clock.activation matches Some((ids, at)) ==> (ids@ != active_queues(r.groups) ==> limited_record(r, clock).activated_ms
            == r.activated_ms),
        clock.activation matches Some((ids, at)) ==> (ids@ == active_queues(r.groups) ==> limited_record(r, clock).activated_ms <= at && (
        limited_record(r, clock).activated_ms == at || limited_record(r, clock).activated_ms == r.activated_ms)),
        limited_record(r, clock).groups.len() == r.groups.len(),
        limited_record(r, clock).captured_ms == r.captured_ms,
        limited_record(r, clock).renewals == r.renewals,
{
    lemma_first_active(r.groups, r.groups.len());
    assert(first_active(r.groups, r.groups.len()) == i);
}

/// A group comes back while its end lies ahead and, where it is being given up, its
/// reception goes on; one that is over is left out, unless it is the active one, whose
/// end is the end of the record. A record is live while none of its active groups is
/// over, and not before it was captured.
pub proof fn groups_come_back_until_they_end(r: RecordView, g: GroupView, effective_ms: u64)
    ensures
        g.role is Active && effective_ms >= g.deadline_ms ==> restorable(g, effective_ms) == Err::<bool, Error>(Error::ActiveAliasExpired),
        !(g.role is Active) && effective_ms >= g.deadline_ms ==> restorable(g, effective_ms) == Ok::<bool, Error>(false),
        (g.role is Active || g.role is Staged) && effective_ms < g.deadline_ms ==> restorable(g, effective_ms) == Ok::<bool, Error>(true),
        (g.role is Unannounced || g.role is Draining) && effective_ms < g.deadline_ms ==> restorable(g, effective_ms) == Ok::<bool, Error>(
            effective_ms < g.receive_until_ms,
        ),
        effective_ms < r.captured_ms ==> live_error(r, effective_ms) == Some(Error::ClockPrecedesCaptured),
        effective_ms >= r.captured_ms && (exists|i: int|
            0 <= i < r.groups.len() && (#[trigger] r.groups[i]).role is Active && r.groups[i].deadline_ms <= effective_ms) ==> live_error(
            r,
            effective_ms,
        ) == Some(Error::ActiveAliasExpired),
        effective_ms >= r.captured_ms && (forall|i: int|
            0 <= i < r.groups.len() ==> (#[trigger] r.groups[i]).role is Active ==> r.groups[i].deadline_ms > effective_ms) ==> live_error(
            r,
            effective_ms,
        ) is None,
{
    if exists|i: int| 0 <= i < r.groups.len() && (#[trigger] r.groups[i]).role is Active && r.groups[i].deadline_ms <= effective_ms {
        let i = choose|i: int| 0 <= i < r.groups.len() && (#[trigger] r.groups[i]).role is Active && r.groups[i].deadline_ms <= effective_ms;
        assert(restorable(r.groups[i], effective_ms) is Err);
    }
}

proof fn lemma_seek(groups: Seq<GroupView>, g: int, effective_ms: u64)
    requires
        0 <= g <= groups.len(),
    ensures
        seek(groups, g, 0, effective_ms) matches Ok(Some((i, j))) ==> g <= i < groups.len() && j == 0 && groups[i].provision.aliases.len() > 0
            && restorable(groups[i], effective_ms) == Ok::<bool, Error>(true) && forall|k: int|
            g <= k < i ==> (restorable(#[trigger] groups[k], effective_ms) == Ok::<bool, Error>(false) || groups[k].provision.aliases.len() == 0),
        seek(groups, g, 0, effective_ms) matches Ok(None) ==> forall|k: int|
            g <= k < groups.len() ==> (restorable(#[trigger] groups[k], effective_ms) == Ok::<bool, Error>(false)
                || groups[k].provision.aliases.len() == 0),
    decreases groups.len() - g,
{
    if g < groups.len() {
        lemma_seek(groups, g + 1, effective_ms);
    }
}

/// The next alias to re-admit is the next of the group under way, or the first of the
/// next group that may come back; none that may is passed over. It has the time that
/// its group has: until the group's end, and where that is being given up no longer
/// than its reception.
pub proof fn readmission_passes_nobody_over(r: RecordView, g: int, a: int, effective_ms: u64)
    requires
        0 <= g <= r.groups.len() <= usize::MAX,
        0 <= a,
        g < r.groups.len() ==> r.groups[g].provision.aliases.len() <= usize::MAX,
    ensures
        g < r.groups.len() && 0 < a < r.groups[g].provision.aliases.len() ==> seek(r.groups, g, a, effective_ms) == Ok::<
            Option<(int, int)>,
            Error,
        >(Some((g, a))),
        a == 0 && seek(r.groups, g, a, effective_ms) is Ok && seek(r.groups, g, a, effective_ms)->Ok_0 is Some ==> {
            let (i, j) = seek(r.groups, g, a, effective_ms)->Ok_0->0;
            &&& g <= i < r.groups.len()
            &&& j == 0
            &&& restorable(r.groups[i], effective_ms) == Ok::<bool, Error>(true)
            &&& forall|k: int|
                g <= k < i ==> (restorable(#[trigger] r.groups[k], effective_ms) == Ok::<bool, Error>(false)
                    || r.groups[k].provision.aliases.len() == 0)
        },
        a == 0 && seek(r.groups, g, a, effective_ms) == Ok::<Option<(int, int)>, Error>(None) ==> forall|k: int|
            g <= k < r.groups.len() ==> (restorable(#[trigger] r.groups[k], effective_ms) == Ok::<bool, Error>(false)
                || r.groups[k].provision.aliases.len() == 0),
        seek(r.groups, g, a, effective_ms) matches Ok(Some((i, j))) ==> {
            let x = r.groups[i];
            let end = if (x.role is Unannounced || x.role is Draining) && x.receive_until_ms < x.deadline_ms {
                x.receive_until_ms
            } else {
                x.deadline_ms
            };
            &&& end <= effective_ms ==> step_at(r, g, a, effective_ms) == Err::<RestoreStep, Error>(Error::ExpiredDuringRestoration)
            &&& end > effective_ms ==> step_at(r, g, a, effective_ms) == Ok::<RestoreStep, Error>(
                RestoreStep::Admit { group: i as usize, alias: j as usize, timeout_ms: (end - effective_ms) as u64 },
            )
        },
        seek(r.groups, g, a, effective_ms) == Ok::<Option<(int, int)>, Error>(None) && live_error(r, effective_ms) is None ==> step_at(
            r,
            g,
            a,
            effective_ms,
        ) == Ok::<RestoreStep, Error>(RestoreStep::Done),
        seek(r.groups, g, a, effective_ms) == Ok::<Option<(int, int)>, Error>(None) && live_error(r, effective_ms) is Some ==> step_at(
            r,
            g,
            a,
            effective_ms,
        ) is Err,
{
    lemma_seek(r.groups, g, effective_ms);
}

/// Re-admitting an alias changes that alias and nothing else of the record.
pub proof fn readmission_touches_one_alias(r: RecordView, g: int, a: int, alias: OwnedAliasView)
    requires
        0 <= g < r.groups.len(),
        0 <= a < r.groups[g].provision.aliases.len(),
    ensures
        with_alias(r, g, a, alias).groups.len() == r.groups.len(),
        with_alias(r, g, a, alias).groups[g].provision.aliases[a] == alias,
        with_alias(r, g, a, alias).groups[g].provision.aliases.len() == r.groups[g].provision.aliases.len(),
        forall|j: int|
            0 <= j < r.groups[g].provision.aliases.len() && j != a ==> #[trigger] with_alias(r, g, a, alias).groups[g].provision.aliases[j]
                == r.groups[g].provision.aliases[j],
        forall|i: int| 0 <= i < r.groups.len() && i != g ==> #[trigger] with_alias(r, g, a, alias).groups[i] == r.groups[i],
        with_alias(r, g, a, alias).groups[g].role == r.groups[g].role,
        with_alias(r, g, a, alias).groups[g].deadline_ms == r.groups[g].deadline_ms,
        with_alias(r, g, a, alias).groups[g].origins == r.groups[g].origins,
        with_alias(r, g, a, alias).captured_ms == r.captured_ms,
        with_alias(r, g, a, alias).activated_ms == r.activated_ms,
        with_alias(r, g, a, alias).renewals == r.renewals,
        same_authority(r.groups[g].provision.aliases[a], alias) <==> alias.contact == r.groups[g].provision.aliases[a].contact
            && alias.capabilities == r.groups[g].provision.aliases[a].capabilities && alias.limits == r.groups[g].provision.aliases[a].limits,
{
}

/// A re-admission begins exactly where there is an alias to do it under, the record is
/// in order for the relay of that alias, the clock has not gone back, and the record is
/// live.
pub proof fn readmission_begins_in_order(
    r: RecordView,
    current: RelayProvisionView,
    clock: RestoreClock,
    wall_ms: u64,
    now: Instant,
    codec: Codec,
    p: Protocol,
)
    ensures
        begin_error(r, current, clock, wall_ms, now, codec, p) is None <==> {
            &&& current.aliases.len() > 0
            &&& record_error(r, current.aliases[0].contact.target, codec, p) is None
            &&& observation(clock, wall_ms, now) matches Ok(effective) && live_error(r, effective) is None
        },
        current.aliases.len() == 0 ==> begin_error(r, current, clock, wall_ms, now, codec, p) == Some(Error::NoAdmissionRoute),
{
}

/// The groups of a live state are its aliases by what they are kept for: two in use,
/// then those that stand ready, then those whose replacement is not announced, then
/// those that drain. Each ends no later than the first of its leases, and nothing is
/// done with it after its end.
pub proof fn live_aliases_become_groups(st: OwnerState, now: Instant, captured_ms: u64)
    ensures
        active_group(st, now, captured_ms) matches Ok(g) ==> {
            &&& g.role is Active
            &&& g.provision == st.client_relay@
            &&& g.receive_until_ms == 0
            &&& g.action_ms <= g.deadline_ms
            &&& expiry_of(views(st.client_relay.aliases@)) == Ok::<u64, Error>(g.deadline_ms)
            &&& g.action_ms == g.deadline_ms || absolute_time(
                Instant { nanos: (st.contact_aliases_activated.nanos + st.alias_lifecycle_timing.alias_ttl.nanos) as u128 },
                now,
                captured_ms,
            ) == Ok::<u64, Error>(g.action_ms)
        },
        staged_group(st) matches Ok(o) ==> (st.staged_contact_aliases is None <==> o is None),
        staged_group(st) matches Ok(Some(g)) ==> {
            &&& g.role is Staged
            &&& g.provision.aliases == views(st.staged_contact_aliases->0@)
            &&& g.provision.frwd_path == st.client_relay.frwd_path@
            &&& g.provision.hop_key == st.client_relay.hop_key
            &&& g.action_ms == 0 && g.receive_until_ms == 0
            &&& expiry_of(g.provision.aliases) == Ok::<u64, Error>(g.deadline_ms)
        },
        unannounced_group(st, now, captured_ms) matches Ok(o) ==> (st.unannounced_old_contact_aliases is None <==> o is None),
        unannounced_group(st, now, captured_ms) matches Ok(Some(g)) ==> {
            &&& g.role is Unannounced
            &&& g.provision.aliases == views(st.unannounced_old_contact_aliases->0@)
            &&& g.provision.frwd_path == st.client_relay.frwd_path@
            &&& g.provision.hop_key == st.client_relay.hop_key
            &&& g.action_ms == g.receive_until_ms
            &&& st.unannounced_contact_deadlines matches Some((receive_until, abandon_at)) && (expiry_of(g.provision.aliases) matches Ok(end)
                && (absolute_time(receive_until, now, captured_ms) matches Ok(t) && g.receive_until_ms == (if t < end { t } else { end })) && (
            absolute_time(abandon_at, now, captured_ms) matches Ok(t) && g.deadline_ms == (if t < end { t } else { end })))
        },
        st.unannounced_old_contact_aliases is Some && st.unannounced_contact_deadlines is None ==> unannounced_group(st, now, captured_ms)
            == Err::<Option<GroupView>, Error>(Error::MissingAnnouncementDeadlines),
        st.unannounced_old_contact_aliases is None && st.unannounced_contact_deadlines is Some ==> unannounced_group(st, now, captured_ms)
            == Err::<Option<GroupView>, Error>(Error::OrphanAnnouncementDeadlines),
{
}

/// Aliases that drain end with the first of their leases or when they are given up,
/// and are revoked and received on no later than that.
pub proof fn draining_aliases_end_in_time(st: OwnerState, d: DrainingView, now: Instant, captured_ms: u64)
    ensures
        draining_group(st, d, now, captured_ms) matches Ok(g) ==> {
            &&& g.role is Draining
            &&& g.provision.aliases == d.aliases
            &&& g.provision.frwd_path == st.client_relay.frwd_path@
            &&& g.provision.hop_key == st.client_relay.hop_key
            &&& g.action_ms <= g.deadline_ms
            &&& g.receive_until_ms <= g.deadline_ms
            &&& expiry_of(d.aliases) matches Ok(end) && (absolute_time(d.abandon_at, now, captured_ms) matches Ok(t) && g.deadline_ms == (if t
                < end {
                t
            } else {
                end
            }))
            &&& absolute_time(d.next_revoke, now, captured_ms) matches Ok(t) && g.action_ms == (if t < g.deadline_ms {
                t
            } else {
                g.deadline_ms
            })
            &&& absolute_time(d.receive_until, now, captured_ms) matches Ok(t) && g.receive_until_ms == (if t < g.deadline_ms {
                t
            } else {
                g.deadline_ms
            })
        },
{
}

proof fn lemma_draining(st: OwnerState, n: nat, now: Instant, captured_ms: u64)
    requires
        n <= st.draining_contact_aliases@.len(),
        draining_groups(st, n, now, captured_ms) is Ok,
    ensures
        ({
            let full = st.draining_contact_aliases@.take(n as int).filter(|d: DrainingContactAliases| d.aliases@.len() > 0);
            let gs = draining_groups(st, n, now, captured_ms)->Ok_0;
            &&& gs.len() == full.len()
            &&& forall|i: int|
                0 <= i < gs.len() ==> draining_group(st, full[i]@, now, captured_ms) == Ok::<GroupView, Error>(#[trigger] gs[i])
        }),
    decreases n,
{
    reveal(Seq::filter);
    if n > 0 {
        let m = (n - 1) as nat;
        lemma_draining(st, m, now, captured_ms);
        let s = st.draining_contact_aliases@;
        assert(s.take(n as int).drop_last() =~= s.take(m as int));
        assert(s.take(n as int).last() == s[m as int]);
        assert(s[m as int]@.aliases.len() == s[m as int].aliases@.len());
    }
}

/// The groups of a record are, in this order, the active one, the staged one and the
/// unannounced one where there are such aliases, and one for each set of aliases that
/// drain, in their order, but for empty ones.
pub proof fn a_record_lists_every_alias(st: OwnerState, now: Instant, captured_ms: u64)
    requires
        live_groups(st, now, captured_ms) is Ok,
    ensures
        ({
            let gs = live_groups(st, now, captured_ms)->Ok_0;
            let full = st.draining_contact_aliases@.filter(|d: DrainingContactAliases| d.aliases@.len() > 0);
            let a: int = if st.staged_contact_aliases is Some { 1 } else { 0 };
            let b: int = if st.unannounced_old_contact_aliases is Some { 1 } else { 0 };
            &&& gs.len() == 1 + a + b + full.len()
            &&& active_group(st, now, captured_ms) == Ok::<GroupView, Error>(gs[0])
            &&& st.staged_contact_aliases is Some ==> staged_group(st) == Ok::<Option<GroupView>, Error>(Some(gs[1]))
            &&& st.unannounced_old_contact_aliases is Some ==> unannounced_group(st, now, captured_ms) == Ok::<Option<GroupView>, Error>(
                Some(gs[1 + a]),
            )
            &&& forall|i: int|
                0 <= i < full.len() ==> draining_group(st, (#[trigger] full[i])@, now, captured_ms) == Ok::<GroupView, Error>(gs[1 + a + b + i])
        }),
{
    let n = st.draining_contact_aliases@.len();
    lemma_draining(st, n, now, captured_ms);
    assert(st.draining_contact_aliases@.take(n as int) =~= st.draining_contact_aliases@);
    live_aliases_become_groups(st, now, captured_ms);
    let full = st.draining_contact_aliases@.filter(|d: DrainingContactAliases| d.aliases@.len() > 0);
    let gs = live_groups(st, now, captured_ms)->Ok_0;
    let dg = draining_groups(st, n, now, captured_ms)->Ok_0;
    let a: int = if st.staged_contact_aliases is Some { 1 } else { 0 };
    let b: int = if st.unannounced_old_contact_aliases is Some { 1 } else { 0 };
    assert forall|i: int| 0 <= i < full.len() implies draining_group(st, (#[trigger] full[i])@, now, captured_ms) == Ok::<GroupView, Error>(
        gs[1 + a + b + i],
    ) by {
        assert(gs[1 + a + b + i] == dg[i]);
    }
}

/// The original operation that a record keeps of an alias is the one that was first
/// sealed for its queue, or the alias itself where none is known.
pub proof fn originals_are_kept_by_queue(aliases: Seq<OwnedAliasView>, origins: Table<[u8; 32], OwnedAlias>, i: int)
    requires
        0 <= i < aliases.len(),
    ensures
        origins_of(aliases, origins).len() == aliases.len(),
        origins.lookup(aliases[i].contact.queue_id@) matches Some(o) ==> origins_of(aliases, origins)[i] == o@,
        origins.lookup(aliases[i].contact.queue_id@) is None ==> origins_of(aliases, origins)[i] == aliases[i],
{
}

/// A group outlives none of its original leases: it ends at its own end or with the
/// first of them, whichever is sooner, and what is to be done with it comes no later.
pub proof fn groups_end_within_their_originals(g: GroupView)
    ensures
        within_origins(g) matches Ok(h) ==> {
            &&& h.role == g.role
            &&& h.provision == g.provision
            &&& h.origins == g.origins
            &&& expiry_of(g.origins) matches Ok(end) && h.deadline_ms == (if g.deadline_ms < end { g.deadline_ms } else { end })
            &&& h.action_ms == (if g.action_ms < h.deadline_ms { g.action_ms } else { h.deadline_ms })
            &&& h.receive_until_ms == (if g.receive_until_ms < h.action_ms { g.receive_until_ms } else { h.action_ms })
        },
        within_origins(g) is Ok <==> expiry_of(g.origins) is Ok,
{
}

proof fn lemma_within(groups: Seq<GroupView>, n: nat)
    requires
        n <= groups.len(),
        all_within_origins(groups, n) is Ok,
    ensures
        all_within_origins(groups, n)->Ok_0.len() == n,
        forall|i: int|
            0 <= i < n ==> within_origins(#[trigger] groups[i]) == Ok::<GroupView, Error>(all_within_origins(groups, n)->Ok_0[i]),
    decreases n,
{
    if n > 0 {
        lemma_within(groups, (n - 1) as nat);
    }
}

/// The record of a live state says when it was captured and since when its aliases are
/// in use, holds every group of the state within its original leases, and keeps exactly
/// the renewals of the queues in it.
pub proof fn a_record_holds_the_live_state(st: OwnerState, now: Instant, captured_ms: u64)
    requires
        live_record(st, now, captured_ms) is Ok,
    ensures
        ({
            let r = live_record(st, now, captured_ms)->Ok_0;
            &&& r.captured_ms == captured_ms
            &&& absolute_time(st.contact_aliases_activated, now, captured_ms) == Ok::<u64, Error>(r.activated_ms)
            &&& live_groups(st, now, captured_ms) matches Ok(live) && live.len() == r.groups.len() && forall|i: int|
                0 <= i < live.len() ==> within_origins(#[trigger] live[i]) == Ok::<GroupView, Error>(r.groups[i])
            &&& forall|k: Seq<u8>| #[trigger]
                r.renewals.dom().contains(k) <==> st.owner_alias_renewals.lookup(k) is Some && views(ids_before(r.groups, r.groups.len())).contains(
                    k,
                )
            &&& forall|k: Seq<u8>| #[trigger] r.renewals.dom().contains(k) ==> r.renewals[k] == st.owner_alias_renewals.lookup(k)->0@
        }),
{
    reveal(live_record);
    let live = live_groups(st, now, captured_ms)->Ok_0;
    lemma_within(live, live.len());
}

/// Taking up a group sets what it is kept for and nothing else: an active group the
/// aliases in use, a staged one those that stand ready, an unannounced one whose
/// reception goes on the old aliases with both of their ends, and any other that is
/// being given up one more set that drains. A group other than the active one that is
/// over changes nothing.
pub proof fn a_group_is_taken_up_by_its_role(v: RolesView, g: GroupView, now: Instant, effective_ms: u64)
    ensures
        !(g.role is Active) && g.deadline_ms <= effective_ms ==> take_up(v, g, now, effective_ms) == Some(v),
        g.role is Active ==> take_up(v, g, now, effective_ms) == Some(RolesView { active: g.provision.aliases, ..v }),
        g.role is Staged && g.deadline_ms > effective_ms ==> take_up(v, g, now, effective_ms) == Some(
            RolesView { staged: Some(g.provision.aliases), ..v },
        ),
        g.role is Unannounced && g.deadline_ms > effective_ms && g.receive_until_ms > effective_ms ==> (take_up(v, g, now, effective_ms) matches Some(t)
            ==> {
            &&& t.unannounced == Some(g.provision.aliases)
            &&& t.deadlines matches Some((receive_until, abandon_at)) && receive_until.nanos - now.nanos == (g.receive_until_ms - effective_ms)
                * 1_000_000 && abandon_at.nanos - now.nanos == (g.deadline_ms - effective_ms) * 1_000_000
            &&& t.active == v.active && t.staged == v.staged && t.draining == v.draining
        }),
        (g.role is Draining || (g.role is Unannounced && g.receive_until_ms <= effective_ms)) && g.deadline_ms > effective_ms ==> (take_up(
            v,
            g,
            now,
            effective_ms,
        ) matches Some(t) ==> {
            &&& t.draining.len() == v.draining.len() + 1
            &&& t.draining.drop_last() == v.draining
            &&& t.draining.last().aliases == g.provision.aliases
            &&& t.draining.last().abandon_at.nanos - now.nanos == (g.deadline_ms - effective_ms) * 1_000_000
            &&& t.draining.last().next_revoke.nanos - now.nanos == (if g.action_ms > effective_ms {
                (g.action_ms - effective_ms) * 1_000_000
            } else {
                0
            })
            &&& t.draining.last().receive_until.nanos - now.nanos == (if g.receive_until_ms > effective_ms {
                (g.receive_until_ms - effective_ms) * 1_000_000
            } else {
                0
            })
            &&& t.active == v.active && t.staged == v.staged && t.unannounced == v.unannounced && t.deadlines == v.deadlines
        }),
        take_up(v, g, now, effective_ms) is None ==> g.deadline_ms > effective_ms && now.nanos + u64::MAX * 1_000_000 > u128::MAX,
{
    if take_up(v, g, now, effective_ms) is Some {
        let t = take_up(v, g, now, effective_ms)->0;
        if t.draining.len() > v.draining.len() {
            assert(t.draining.drop_last() =~= v.draining);
        }
    }
    let a = g.deadline_ms - effective_ms;
    let b = g.action_ms - effective_ms;
    let c = g.receive_until_ms - effective_ms;
    assert(a * 1_000_000 <= u64::MAX * 1_000_000) by (nonlinear_arith)
        requires
            a <= u64::MAX,
    ;
    assert(b * 1_000_000 <= u64::MAX * 1_000_000) by (nonlinear_arith)
        requires
            b <= u64::MAX,
    ;
    assert(c * 1_000_000 <= u64::MAX * 1_000_000) by (nonlinear_arith)
        requires
            c <= u64::MAX,
    ;
}

proof fn lemma_taken_role(active: Seq<OwnedAliasView>, groups: Seq<GroupView>, n: nat, now: Instant, effective_ms: u64, i: int)
    requires
        0 <= i < n <= groups.len(),
        taken_up(active, groups, n, now, effective_ms) is Some,
        forall|j: int| 0 <= j < groups.len() && j != i ==> (#[trigger] groups[j]).role != groups[i].role,
    ensures
        ({
            let t = taken_up(active, groups, n, now, effective_ms)->0;
            &&& groups[i].role is Active ==> t.active == groups[i].provision.aliases
            &&& groups[i].role is Staged && groups[i].deadline_ms > effective_ms ==> t.staged == Some(groups[i].provision.aliases)
            &&& groups[i].role is Unannounced && groups[i].deadline_ms > effective_ms && groups[i].receive_until_ms > effective_ms
                ==> t.unannounced == Some(groups[i].provision.aliases)
        }),
    decreases n,
{
    let m = (n - 1) as nat;
    if i < m {
        lemma_taken_role(active, groups, m, now, effective_ms, i);
        assert(groups[m as int].role != groups[i].role);
    }
}

proof fn lemma_taken_draining(active: Seq<OwnedAliasView>, groups: Seq<GroupView>, n: nat, now: Instant, effective_ms: u64, i: int)
    requires
        0 <= i < n <= groups.len(),
        taken_up(active, groups, n, now, effective_ms) is Some,
        groups[i].role is Draining,
        groups[i].deadline_ms > effective_ms,
    ensures
        exists|k: int|
            0 <= k < (taken_up(active, groups, n, now, effective_ms)->0).draining.len() && (#[trigger] (taken_up(
                active,
                groups,
                n,
                now,
                effective_ms,
            )->0).draining[k]).aliases == groups[i].provision.aliases,
    decreases n,
{
    let m = (n - 1) as nat;
    let v = taken_up(active, groups, m, now, effective_ms)->0;
    let t = taken_up(active, groups, n, now, effective_ms)->0;
    if i < m {
        lemma_taken_draining(active, groups, m, now, effective_ms, i);
        let k = choose|k: int| 0 <= k < v.draining.len() && (#[trigger] v.draining[k]).aliases == groups[i].provision.aliases;
        assert(t.draining[k] == v.draining[k]);
    } else {
        assert(t.draining[v.draining.len() as int].aliases == groups[i].provision.aliases);
    }
}

/// Every role of a record that is not over is live once the record is taken up: the
/// active aliases, the staged ones, the unannounced ones while their reception goes
/// on, and each set that drains.
pub proof fn live_roles_survive(active: Seq<OwnedAliasView>, groups: Seq<GroupView>, now: Instant, effective_ms: u64, i: int)
    requires
        0 <= i < groups.len(),
        taken_up(active, groups, groups.len(), now, effective_ms) is Some,
    ensures
        ({
            let t = taken_up(active, groups, groups.len(), now, effective_ms)->0;
            let alone = forall|j: int| 0 <= j < groups.len() && j != i ==> (#[trigger] groups[j]).role != groups[i].role;
            &&& alone && groups[i].role is Active ==> t.active == groups[i].provision.aliases
            &&& alone && groups[i].role is Staged && groups[i].deadline_ms > effective_ms ==> t.staged == Some(groups[i].provision.aliases)
            &&& alone && groups[i].role is Unannounced && groups[i].deadline_ms > effective_ms && groups[i].receive_until_ms > effective_ms
                ==> t.unannounced == Some(groups[i].provision.aliases)
            &&& groups[i].role is Draining && groups[i].deadline_ms > effective_ms ==> exists|k: int|
                0 <= k < t.draining.len() && (#[trigger] t.draining[k]).aliases == groups[i].provision.aliases
        }),
{
    if forall|j: int| 0 <= j < groups.len() && j != i ==> (#[trigger] groups[j]).role != groups[i].role {
        lemma_taken_role(active, groups, groups.len(), now, effective_ms, i);
    }
    if groups[i].role is Draining && groups[i].deadline_ms > effective_ms {
        lemma_taken_draining(active, groups, groups.len(), now, effective_ms, i);
    }
}

/// A record is taken up exactly where the clock has not gone back, the record is live
/// or the node is offline, its aliases were not activated in the future nor longer ago
/// than the clock counts, and its ends can be counted.
pub proof fn records_are_taken_up_in_time(r: RecordView, st: OwnerState, clock: RestoreClock, offline: bool, wall_ms: u64, now: Instant)
    ensures
        apply_error(r, st, clock, offline, wall_ms, now) is None <==> (observation(clock, wall_ms, now) matches Ok(effective) && {
            &&& offline || live_error(r, effective) is None
            &&& r.activated_ms <= effective
            &&& (effective - r.activated_ms) * 1_000_000 <= now.nanos
            &&& taken_up(views(st.client_relay.aliases@), r.groups, r.groups.len(), now, effective) is Some
        }),
{
}

proof fn lemma_last_origin(origins: Seq<OwnedAliasView>, n: nat, queue: Seq<u8>)
    requires
        n <= origins.len(),
    ensures
        last_origin(origins, n, queue) is None <==> forall|j: int| 0 <= j < n ==> (#[trigger] origins[j]).contact.queue_id@ != queue,
        last_origin(origins, n, queue) matches Some(o) ==> o.contact.queue_id@ == queue && exists|j: int| 0 <= j < n && #[trigger] origins[j] == o,
    decreases n,
{
    if n > 0 {
        lemma_last_origin(origins, (n - 1) as nat, queue);
        if origins[n - 1].contact.queue_id@ != queue && last_origin(origins, (n - 1) as nat, queue) is Some {
            let o = last_origin(origins, (n - 1) as nat, queue)->0;
            let j = choose|j: int| 0 <= j < n - 1 && #[trigger] origins[j] == o;
            assert(origins[j] == o);
        }
    }
}

proof fn lemma_origin_in(groups: Seq<GroupView>, n: nat, queue: Seq<u8>)
    requires
        n <= groups.len(),
    ensures
        origin_in(groups, n, queue) is None <==> forall|i: int, j: int|
            0 <= i < n && 0 <= j < groups[i].origins.len() ==> (#[trigger] groups[i].origins[j]).contact.queue_id@ != queue,
        origin_in(groups, n, queue) matches Some(o) ==> o.contact.queue_id@ == queue && exists|i: int, j: int|
            0 <= i < n && 0 <= j < groups[i].origins.len() && #[trigger] groups[i].origins[j] == o,
    decreases n,
{
    if n > 0 {
        let m = (n - 1) as nat;
        lemma_origin_in(groups, m, queue);
        let last = groups[m as int].origins;
        lemma_last_origin(last, last.len(), queue);
        if last_origin(last, last.len(), queue) is Some {
            let o = last_origin(last, last.len(), queue)->0;
            let j = choose|j: int| 0 <= j < last.len() && #[trigger] last[j] == o;
            assert(groups[m as int].origins[j] == o);
        } else if origin_in(groups, m, queue) is Some {
            let o = origin_in(groups, m, queue)->0;
            let (i, j) = choose|i: int, j: int| 0 <= i < m && 0 <= j < groups[i].origins.len() && #[trigger] groups[i].origins[j] == o;
            assert(groups[i].origins[j] == o);
        }
    }
}

/// Once a record is taken up, the original operation of a queue is one that the record
/// keeps for it, and no queue without one in the record has any; the renewals are those
/// of the record; and the aliases are as old as the record says.
pub proof fn originals_come_from_the_record(
    r: RecordView,
    st: OwnerState,
    clock: RestoreClock,
    wall_ms: u64,
    now: Instant,
    now_unix: u64,
    own: Seq<RelayTarget>,
    t: OwnerState,
    queue: Seq<u8>,
)
    requires
        applied(r, st, clock, wall_ms, now, now_unix, own, t),
    ensures
        t.owner_alias_origins.lookup(queue) is None <==> forall|i: int, j: int|
            0 <= i < r.groups.len() && 0 <= j < r.groups[i].origins.len() ==> (#[trigger] r.groups[i].origins[j]).contact.queue_id@ != queue,
        t.owner_alias_origins.lookup(queue) matches Some(o) ==> o@.contact.queue_id@ == queue && exists|i: int, j: int|
            0 <= i < r.groups.len() && 0 <= j < r.groups[i].origins.len() && #[trigger] r.groups[i].origins[j] == o@,
        t.owner_alias_renewals.lookup(queue) is Some <==> r.renewals.dom().contains(queue),
        t.owner_alias_renewals.lookup(queue) matches Some(wire) ==> wire@ == r.renewals[queue],
        now.nanos - t.contact_aliases_activated.nanos == (t.owner_clock.last_effective_ms - r.activated_ms) * 1_000_000,
        t.client_relay.frwd_path == st.client_relay.frwd_path,
        t.client_relay.hop_key == st.client_relay.hop_key,
        t.alias_lifecycle_timing == st.alias_lifecycle_timing,
        t.routed == st.routed,
{
    lemma_origin_in(r.groups, r.groups.len(), queue);
    assert(origin_view(t.owner_alias_origins.lookup(queue)) == origin_in(r.groups, r.groups.len(), queue));
    assert(wires(t.owner_alias_renewals).dom().contains(queue) <==> t.owner_alias_renewals.has(queue));
}

} // verus!
