//! Who was heard of, and until when. A presence is believed for as long as its
//! lease says, never on an older word than the last, and only of those whom the
//! user opted in for.

use vstd::prelude::*;
use rand::seq::SliceRandom;
use crate::bytes::{copy_bytes, same_id};
use crate::error::Error;
use crate::model::{views, ChannelRoute};
use crate::node_state::{ChannelState, MemberKey, NodeState, Presence, PresenceMode, PresenceObservation, Reachability};
use crate::table::{among, distinct, keys_of, lemma_place, place, Key, Table};
use crate::time::{Duration, Instant};

verus! {

/// A change that is made known to the application.
#[derive(Debug)]
pub enum PresenceEvent {
    Peer { peer_pk: Vec<u8>, reachability: Reachability },
    Member { channel: String, member_id: [u8; 32], reachability: Reachability },
}

pub enum PresenceEventView {
    Peer { peer_pk: Seq<u8>, reachability: Reachability },
    Member { channel: Seq<char>, member_id: [u8; 32], reachability: Reachability },
}

impl View for PresenceEvent {
    type V = PresenceEventView;

    open spec fn view(&self) -> PresenceEventView {
        match *self {
            PresenceEvent::Peer { peer_pk, reachability } => PresenceEventView::Peer { peer_pk: peer_pk@, reachability },
            PresenceEvent::Member { channel, member_id, reachability } => PresenceEventView::Member {
                channel: channel@,
                member_id,
                reachability,
            },
        }
    }
}

/// Whether the clock can count a lease from now on.
pub open spec fn leasable(now: Instant, lease_secs: u64) -> bool {
    now.nanos + lease_secs * 1_000_000_000 <= u128::MAX
}

/// What is known of someone who was heard of.
pub open spec fn seen_until(reachability: Reachability, now: Instant, lease_secs: u64) -> PresenceObservation {
    PresenceObservation { reachability, expires: Instant { nanos: (now.nanos + lease_secs * 1_000_000_000) as u128 } }
}

/// Whether a reachability is news.
pub open spec fn is_news(before: Option<PresenceObservation>, reachability: Reachability) -> bool {
    match before {
        Some(o) => o.reachability != reachability,
        None => true,
    }
}

fn observation_until(reachability: Reachability, now: Instant, lease_secs: u64) -> (r: PresenceObservation)
    requires
        leasable(now, lease_secs),
    ensures
        r == seen_until(reachability, now, lease_secs),
{
    let span = Duration::from_secs(lease_secs);
    PresenceObservation { reachability, expires: Instant { nanos: now.nanos + span.nanos } }
}

/// Whether a table says one thing of a key, and of others what it said before.
pub open spec fn set_in<K: Key, V>(before: Table<K, V>, key: K::V, value: Option<V>, after: Table<K, V>) -> bool {
    &&& after.lookup(key) == value
    &&& forall|k: K::V| k != key ==> #[trigger] after.lookup(k) == before.lookup(k)
    &&& before.wf() ==> after.wf()
}

/// Notes that a peer was heard of, and makes it known where it is news.
pub fn observe_direct_reachability(p: &mut Presence, peer_pk: &Vec<u8>, reachability: Reachability, lease_secs: u64, now: Instant) -> (r: Option<
    PresenceEvent,
>)
    requires
        leasable(now, lease_secs),
    ensures
        set_in(old(p).direct, peer_pk@, Some(seen_until(reachability, now, lease_secs)), final(p).direct),
        *final(p) == (Presence { direct: final(p).direct, ..*old(p) }),
        match r {
            Some(e) => is_news(old(p).direct.lookup(peer_pk@), reachability) && e@ == (PresenceEventView::Peer {
                peer_pk: peer_pk@,
                reachability,
            }),
            None => !is_news(old(p).direct.lookup(peer_pk@), reachability),
        },
{
    let changed = match p.direct.get(peer_pk) {
        Some(o) => o.reachability != reachability,
        None => true,
    };
    p.direct.insert(copy_bytes(peer_pk.as_slice()), observation_until(reachability, now, lease_secs));
    if changed {
        Some(PresenceEvent::Peer { peer_pk: copy_bytes(peer_pk.as_slice()), reachability })
    } else {
        None
    }
}

/// Forgets what is known of a peer, and makes it known where something was.
pub fn withdraw_direct_presence(p: &mut Presence, peer_pk: &Vec<u8>) -> (r: Option<PresenceEvent>)
    requires
        old(p).direct.wf(),
    ensures
        set_in(old(p).direct, peer_pk@, None, final(p).direct),
        *final(p) == (Presence { direct: final(p).direct, ..*old(p) }),
        match r {
            Some(e) => old(p).direct.lookup(peer_pk@) is Some && e@ == (PresenceEventView::Peer {
                peer_pk: peer_pk@,
                reachability: Reachability::Unknown,
            }),
            None => old(p).direct.lookup(peer_pk@) is None,
        },
{
    match p.direct.remove(peer_pk) {
        Some(_) => Some(PresenceEvent::Peer { peer_pk: copy_bytes(peer_pk.as_slice()), reachability: Reachability::Unknown }),
        None => None,
    }
}

/// Whether a word is newer than the last one that was taken.
pub open spec fn is_newer(counter: u64, taken: Option<u64>) -> bool {
    counter > last_word(taken)
}

/// What a mode says of the sender, if anything.
pub open spec fn said(mode: PresenceMode) -> Option<Reachability> {
    match mode {
        PresenceMode::RecentlyReachable => Some(Reachability::RecentlyReachable),
        PresenceMode::Away => Some(Reachability::Away),
        PresenceMode::Invisible => None,
    }
}

fn meaning(mode: PresenceMode) -> (r: Option<Reachability>)
    ensures
        r == said(mode),
{
    match mode {
        PresenceMode::RecentlyReachable => Some(Reachability::RecentlyReachable),
        PresenceMode::Away => Some(Reachability::Away),
        PresenceMode::Invisible => None,
    }
}

/// The last word that counted.
pub open spec fn last_word(counter: Option<u64>) -> u64 {
    match counter {
        Some(n) => n,
        None => 0,
    }
}

/// What is known after a word that counts: what it says, if the user opted in.
pub open spec fn told(opted_in: bool, mode: PresenceMode, now: Instant, lease_secs: u32) -> Option<PresenceObservation> {
    match said(mode) {
        Some(reachability) if opted_in => Some(seen_until(reachability, now, lease_secs as u64)),
        _ => None,
    }
}

/// The change that is made known with it.
pub open spec fn news(before: Option<PresenceObservation>, opted_in: bool, mode: PresenceMode) -> Option<Reachability> {
    match said(mode) {
        Some(reachability) if opted_in => if is_news(before, reachability) {
            Some(reachability)
        } else {
            None
        },
        _ => if before is Some {
            Some(Reachability::Unknown)
        } else {
            None
        },
    }
}

/// Takes a peer's word on its presence. A word no newer than the last is refused;
/// any other is remembered as the last, and believed where the user opted in.
pub fn apply_direct_presence(
    p: &mut Presence,
    peer_pk: &Vec<u8>,
    counter: u64,
    mode: PresenceMode,
    lease_secs: u32,
    now: Instant,
) -> (r: (bool, Option<PresenceEvent>))
    requires
        leasable(now, lease_secs as u64),
        old(p).direct.wf(),
        old(p).direct_counters.wf(),
    ensures
        ({
            let before = old(p).direct.lookup(peer_pk@);
            let opted_in = views(old(p).direct_opt_in@).contains(peer_pk@);
            if !is_newer(counter, old(p).direct_counters.lookup(peer_pk@)) {
                !r.0 && r.1 is None && *final(p) == *old(p)
            } else {
                &&& r.0
                &&& set_in(old(p).direct_counters, peer_pk@, Some(counter), final(p).direct_counters)
                &&& set_in(old(p).direct, peer_pk@, told(opted_in, mode, now, lease_secs), final(p).direct)
                &&& match r.1 {
                    Some(e) => news(before, opted_in, mode) matches Some(reachability) && e@ == (PresenceEventView::Peer {
                        peer_pk: peer_pk@,
                        reachability,
                    }),
                    None => news(before, opted_in, mode) is None,
                }
            }
        }),
        *final(p) == (Presence { direct: final(p).direct, direct_counters: final(p).direct_counters, ..*old(p) }),
{
    let previous: u64 = match p.direct_counters.get(peer_pk) {
        Some(n) => *n,
        None => 0,
    };
    if counter <= previous {
        return (false, None);
    }
    p.direct_counters.insert(copy_bytes(peer_pk.as_slice()), counter);
    if !among(&p.direct_opt_in, peer_pk) {
        return (true, withdraw_direct_presence(p, peer_pk));
    }
    match meaning(mode) {
        Some(reachability) => (true, observe_direct_reachability(p, peer_pk, reachability, lease_secs as u64, now)),
        None => (true, withdraw_direct_presence(p, peer_pk)),
    }
}

/// Notes that a member of a channel was heard of.
pub fn observe_channel_reachability(p: &mut Presence, key: &MemberKey, reachability: Reachability, lease_secs: u64, now: Instant) -> (r: Option<
    PresenceEvent,
>)
    requires
        leasable(now, lease_secs),
    ensures
        set_in(old(p).channel, key@, Some(seen_until(reachability, now, lease_secs)), final(p).channel),
        *final(p) == (Presence { channel: final(p).channel, ..*old(p) }),
        match r {
            Some(e) => is_news(old(p).channel.lookup(key@), reachability) && e@ == (PresenceEventView::Member {
                channel: key.channel@,
                member_id: key.member_id,
                reachability,
            }),
            None => !is_news(old(p).channel.lookup(key@), reachability),
        },
{
    let changed = match p.channel.get(key) {
        Some(o) => o.reachability != reachability,
        None => true,
    };
    p.channel.insert(key.copy_key(), observation_until(reachability, now, lease_secs));
    if changed {
        Some(PresenceEvent::Member { channel: key.channel.clone(), member_id: key.member_id, reachability })
    } else {
        None
    }
}

/// Forgets what is known of a member of a channel.
pub fn withdraw_channel_presence(p: &mut Presence, key: &MemberKey) -> (r: Option<PresenceEvent>)
    requires
        old(p).channel.wf(),
    ensures
        set_in(old(p).channel, key@, None, final(p).channel),
        *final(p) == (Presence { channel: final(p).channel, ..*old(p) }),
        match r {
            Some(e) => old(p).channel.lookup(key@) is Some && e@ == (PresenceEventView::Member {
                channel: key.channel@,
                member_id: key.member_id,
                reachability: Reachability::Unknown,
            }),
            None => old(p).channel.lookup(key@) is None,
        },
{
    match p.channel.remove(key) {
        Some(_) => Some(
            PresenceEvent::Member { channel: key.channel.clone(), member_id: key.member_id, reachability: Reachability::Unknown },
        ),
        None => None,
    }
}

/// Takes a member's word on its presence in a channel.
pub fn apply_channel_presence(
    p: &mut Presence,
    key: &MemberKey,
    counter: u64,
    mode: PresenceMode,
    lease_secs: u32,
    now: Instant,
) -> (r: (bool, Option<PresenceEvent>))
    requires
        leasable(now, lease_secs as u64),
        old(p).channel.wf(),
        old(p).channel_counters.wf(),
    ensures
        ({
            let before = old(p).channel.lookup(key@);
            let opted_in = views(old(p).channel_opt_in@).contains(key.channel@);
            if !is_newer(counter, old(p).channel_counters.lookup(key@)) {
                !r.0 && r.1 is None && *final(p) == *old(p)
            } else {
                &&& r.0
                &&& set_in(old(p).channel_counters, key@, Some(counter), final(p).channel_counters)
                &&& set_in(old(p).channel, key@, told(opted_in, mode, now, lease_secs), final(p).channel)
                &&& match r.1 {
                    Some(e) => news(before, opted_in, mode) matches Some(reachability) && e@ == (PresenceEventView::Member {
                        channel: key.channel@,
                        member_id: key.member_id,
                        reachability,
                    }),
                    None => news(before, opted_in, mode) is None,
                }
            }
        }),
        *final(p) == (Presence { channel: final(p).channel, channel_counters: final(p).channel_counters, ..*old(p) }),
{
    let previous: u64 = match p.channel_counters.get(key) {
        Some(n) => *n,
        None => 0,
    };
    if counter <= previous {
        return (false, None);
    }
    p.channel_counters.insert(key.copy_key(), counter);
    if !among(&p.channel_opt_in, &key.channel) {
        return (true, withdraw_channel_presence(p, key));
    }
    match meaning(mode) {
        Some(reachability) => (true, observe_channel_reachability(p, key, reachability, lease_secs as u64, now)),
        None => (true, withdraw_channel_presence(p, key)),
    }
}

/// Which entries of a table leave it.
pub trait Leaving<K: Key>: Sized {
    spec fn leaves(self, key: K::V, o: PresenceObservation) -> bool;

    fn must_leave(&self, key: &K, o: &PresenceObservation) -> (r: bool)
        ensures
            r == self.leaves(key@, *o),
    ;
}

/// Observations whose lease is over leave.
#[derive(Clone, Copy)]
pub struct Expired {
    pub now: Instant,
}

impl<K: Key> Leaving<K> for Expired {
    open spec fn leaves(self, key: K::V, o: PresenceObservation) -> bool {
        o.expires.nanos <= self.now.nanos
    }

    fn must_leave(&self, key: &K, o: &PresenceObservation) -> (r: bool) {
        o.expires.nanos <= self.now.nanos
    }
}

/// The members of one channel leave.
pub struct OfChannel<'a> {
    pub channel: &'a String,
}

impl<'a> Leaving<MemberKey> for OfChannel<'a> {
    open spec fn leaves(self, key: (Seq<char>, [u8; 32]), o: PresenceObservation) -> bool {
        match key {
            (channel, _) => channel == self.channel@,
        }
    }

    fn must_leave(&self, key: &MemberKey, o: &PresenceObservation) -> (r: bool) {
        key.channel == *self.channel
    }
}

/// The keys of those among the first `n` entries that leave, in order.
pub open spec fn leavers<K: Key, L: Leaving<K>>(s: Seq<(K, PresenceObservation)>, n: nat, l: L) -> Seq<K::V>
    decreases n,
{
    if n == 0 {
        Seq::empty()
    } else if l.leaves(s[n - 1].0@, s[n - 1].1) {
        leavers(s, (n - 1) as nat, l).push(s[n - 1].0@)
    } else {
        leavers(s, (n - 1) as nat, l)
    }
}

/// Whether exactly the entries that leave have left.
pub open spec fn left_out<K: Key, L: Leaving<K>>(before: Table<K, PresenceObservation>, after: Table<K, PresenceObservation>, l: L) -> bool {
    after.wf() && forall|k: K::V| #[trigger]
        after.lookup(k) == (match before.lookup(k) {
            Some(o) => if l.leaves(k, o) {
                None
            } else {
                Some(o)
            },
            None => None,
        })
}

fn leavers_of<K: Key, L: Leaving<K>>(t: &Table<K, PresenceObservation>, l: &L) -> (r: Vec<K>)
    ensures
        views(r@) == leavers(t.entries@, t.entries@.len(), *l),
{
    let ghost s = t.entries@;
    let mut out: Vec<K> = Vec::new();
    let mut i: usize = 0;
    assert(views(out@) =~= Seq::<K::V>::empty());
    while i < t.entries.len()
        invariant
            i <= t.entries.len(),
            s == t.entries@,
            views(out@) == leavers(s, i as nat, *l),
        decreases t.entries.len() - i,
    {
        if l.must_leave(&t.entries[i].0, &t.entries[i].1) {
            let ghost before = views(out@);
            out.push(t.entries[i].0.copy_key());
            assert(views(out@) =~= before.push(s[i as int].0@));
        }
        i += 1;
    }
    out
}

proof fn lemma_leavers<K: Key, L: Leaving<K>>(s: Seq<(K, PresenceObservation)>, n: nat, l: L, k: K::V)
    requires
        n <= s.len(),
        distinct(keys_of(s)),
    ensures
        leavers(s, n, l).contains(k) <==> exists|i: int| 0 <= i < n && (#[trigger] s[i]).0@ == k && l.leaves(k, s[i].1),
    decreases n,
{
    if n > 0 {
        let m = (n - 1) as nat;
        lemma_leavers(s, m, l, k);
        let before = leavers(s, m, l);
        let now = leavers(s, n, l);
        if l.leaves(s[m as int].0@, s[m as int].1) {
            assert(now[before.len() as int] == s[m as int].0@);
            if now.contains(k) {
                let j = now.index_of(k);
                if j < before.len() {
                    assert(before[j] == k);
                } else {
                    assert(s[m as int].0@ == k);
                }
            }
            if before.contains(k) {
                let j = before.index_of(k);
                assert(now[j] == k);
            }
        }
    }
}

fn drop_keys<K: Key>(t: &mut Table<K, PresenceObservation>, keys: &Vec<K>)
    requires
        old(t).wf(),
    ensures
        final(t).wf(),
        forall|k: K::V| #[trigger] final(t).lookup(k) == (if views(keys@).contains(k) {
            None
        } else {
            old(t).lookup(k)
        }),
{
    let ghost v = views(keys@);
    let ghost before = *t;
    let mut i: usize = 0;
    while i < keys.len()
        invariant
            i <= keys.len(),
            v == views(keys@),
            t.wf(),
            forall|k: K::V| #[trigger] t.lookup(k) == (if v.take(i as int).contains(k) {
                None
            } else {
                before.lookup(k)
            }),
        decreases keys.len() - i,
    {
        let ghost mid = *t;
        assert(v[i as int] == keys@[i as int]@);
        t.remove(&keys[i]);
        assert forall|k: K::V| #[trigger] t.lookup(k) == (if v.take(i + 1).contains(k) {
            None
        } else {
            before.lookup(k)
        }) by {
            let a = v.take(i as int);
            let b = v.take(i + 1);
            assert(b =~= a.push(v[i as int]));
            if k == v[i as int] {
                assert(b[i as int] == k);
            } else {
                assert(t.lookup(k) == mid.lookup(k));
                if a.contains(k) {
                    assert(b[a.index_of(k)] == k);
                }
                if b.contains(k) {
                    let j = b.index_of(k);
                    assert(a[j] == k);
                }
            }
        }
        i += 1;
    }
    assert(v.take(i as int) =~= v);
}

fn let_leave<K: Key, L: Leaving<K>>(t: &mut Table<K, PresenceObservation>, l: &L) -> (r: Vec<K>)
    requires
        old(t).wf(),
    ensures
        left_out(*old(t), *final(t), *l),
        views(r@) == leavers(old(t).entries@, old(t).entries@.len(), *l),
{
    let ghost before = *t;
    let ghost s = t.entries@;
    let gone = leavers_of(t, l);
    drop_keys(t, &gone);
    assert forall|k: K::V| #[trigger] t.lookup(k) == (match before.lookup(k) {
        Some(o) => if l.leaves(k, o) {
            None
        } else {
            Some(o)
        },
        None => None,
    }) by {
        lemma_leavers(s, s.len(), *l, k);
        lemma_place(before.keys(), k);
        if before.has(k) {
            let p = place(before.keys(), k);
            assert(s[p].0@ == k);
            if views(gone@).contains(k) {
                let i = choose|i: int| 0 <= i < s.len() && (#[trigger] s[i]).0@ == k && l.leaves(k, s[i].1);
                assert(before.keys()[i] == before.keys()[p]);
                assert(i == p);
            }
        }
    }
    gone
}

/// What is made known of peers that are no longer believed in.
pub open spec fn peers_unknown(keys: Seq<Seq<u8>>) -> Seq<PresenceEventView> {
    Seq::new(keys.len(), |i: int| PresenceEventView::Peer { peer_pk: keys[i], reachability: Reachability::Unknown })
}

/// What is made known of members that are no longer believed in.
pub open spec fn members_unknown(keys: Seq<(Seq<char>, [u8; 32])>) -> Seq<PresenceEventView> {
    Seq::new(keys.len(), |i: int| member_unknown(keys[i]))
}

pub open spec fn member_unknown(key: (Seq<char>, [u8; 32])) -> PresenceEventView {
    match key {
        (channel, member_id) => PresenceEventView::Member { channel, member_id, reachability: Reachability::Unknown },
    }
}

/// Stops believing in the peers whose lease is over, and makes each known.
pub fn expire_direct_presence(p: &mut Presence, now: Instant) -> (r: Vec<PresenceEvent>)
    requires
        old(p).direct.wf(),
    ensures
        left_out(old(p).direct, final(p).direct, Expired { now }),
        *final(p) == (Presence { direct: final(p).direct, ..*old(p) }),
        views(r@) == peers_unknown(leavers(old(p).direct.entries@, old(p).direct.entries@.len(), Expired { now })),
{
    let gone = let_leave(&mut p.direct, &Expired { now });
    let mut out: Vec<PresenceEvent> = Vec::new();
    let mut i: usize = 0;
    while i < gone.len()
        invariant
            i <= gone.len(),
            out@.len() == i,
            forall|j: int|
                0 <= j < i ==> (#[trigger] out@[j])@ == (PresenceEventView::Peer {
                    peer_pk: gone@[j]@,
                    reachability: Reachability::Unknown,
                }),
        decreases gone.len() - i,
    {
        out.push(PresenceEvent::Peer { peer_pk: copy_bytes(gone[i].as_slice()), reachability: Reachability::Unknown });
        i += 1;
    }
    assert(views(out@) =~= peers_unknown(views(gone@)));
    out
}

fn members_gone(gone: &Vec<MemberKey>) -> (r: Vec<PresenceEvent>)
    ensures
        views(r@) == members_unknown(views(gone@)),
{
    let mut out: Vec<PresenceEvent> = Vec::new();
    let mut i: usize = 0;
    while i < gone.len()
        invariant
            i <= gone.len(),
            out@.len() == i,
            forall|j: int| 0 <= j < i ==> (#[trigger] out@[j])@ == member_unknown(gone@[j]@),
        decreases gone.len() - i,
    {
        out.push(
            PresenceEvent::Member {
                channel: gone[i].channel.clone(),
                member_id: gone[i].member_id,
                reachability: Reachability::Unknown,
            },
        );
        i += 1;
    }
    assert(views(out@) =~= members_unknown(views(gone@)));
    out
}

/// Stops believing in the members whose lease is over.
pub fn expire_channel_presence(p: &mut Presence, now: Instant) -> (r: Vec<PresenceEvent>)
    requires
        old(p).channel.wf(),
    ensures
        left_out(old(p).channel, final(p).channel, Expired { now }),
        *final(p) == (Presence { channel: final(p).channel, ..*old(p) }),
        views(r@) == members_unknown(leavers(old(p).channel.entries@, old(p).channel.entries@.len(), Expired { now })),
{
    let gone = let_leave(&mut p.channel, &Expired { now });
    members_gone(&gone)
}

/// Stops believing in every member of a channel.
pub fn clear_channel_presence(p: &mut Presence, channel: &String) -> (r: Vec<PresenceEvent>)
    requires
        old(p).channel.wf(),
    ensures
        left_out(old(p).channel, final(p).channel, OfChannel { channel }),
        *final(p) == (Presence { channel: final(p).channel, ..*old(p) }),
        views(r@) == members_unknown(leavers(old(p).channel.entries@, old(p).channel.entries@.len(), OfChannel { channel })),
{
    let gone = let_leave(&mut p.channel, &OfChannel { channel });
    members_gone(&gone)
}

/// `SliceRandom::shuffle` of the `rand` crate, with `rand::thread_rng`: it swaps
/// items only, so every item stays as often as it was. Nothing is known of their
/// order.
#[verifier::external_body]
fn shuffle_routes(routes: &mut Vec<ChannelRoute>)
    ensures
        final(routes)@.to_multiset() == old(routes)@.to_multiset(),
{
    routes.shuffle(&mut rand::thread_rng());
}

/// Whether a pseudonym is among those of routes.
pub open spec fn targeted(targets: Seq<ChannelRoute>, pseudonym: [u8; 32]) -> bool {
    exists|i: int| 0 <= i < targets.len() && (#[trigger] targets[i]).pseudonym == pseudonym
}

fn is_targeted(targets: &Vec<ChannelRoute>, pseudonym: &[u8; 32]) -> (r: bool)
    ensures
        r == targeted(targets@, *pseudonym),
{
    let mut i: usize = 0;
    while i < targets.len()
        invariant
            i <= targets.len(),
            forall|j: int| 0 <= j < i ==> (#[trigger] targets@[j]).pseudonym != *pseudonym,
        decreases targets.len() - i,
    {
        if same_id(&targets[i].pseudonym, pseudonym) {
            return true;
        }
        i += 1;
    }
    false
}

/// Targets with the first `n` of a roster added: not this node, and nobody twice.
pub open spec fn targets_with(targets: Seq<ChannelRoute>, roster: Seq<ChannelRoute>, n: nat, own: [u8; 32]) -> Seq<ChannelRoute>
    decreases n,
{
    if n == 0 {
        targets
    } else {
        let before = targets_with(targets, roster, (n - 1) as nat, own);
        let route = roster[n - 1];
        if route.pseudonym == own || targeted(before, route.pseudonym) {
            before
        } else {
            before.push(route)
        }
    }
}

/// How many of a roster are asked at most.
pub open spec fn asked(roster: nat) -> nat {
    if roster < 64 {
        roster
    } else {
        64
    }
}

/// Adds the first of a roster to the targets.
pub fn add_targets(targets: Vec<ChannelRoute>, roster: &Vec<ChannelRoute>, own: &[u8; 32]) -> (r: Vec<ChannelRoute>)
    ensures
        r@ == targets_with(targets@, roster@, asked(roster@.len()), *own),
{
    let ghost first = targets@;
    let mut targets = targets;
    let mut i: usize = 0;
    while i < roster.len() && i < 64
        invariant
            i <= roster.len(),
            i <= 64,
            targets@ == targets_with(first, roster@, i as nat, *own),
        decreases roster.len() - i,
    {
        if !same_id(&roster[i].pseudonym, own) && !is_targeted(&targets, &roster[i].pseudonym) {
            targets.push(roster[i]);
        }
        i += 1;
    }
    targets
}

/// The routes in a directory.
pub open spec fn routes_of(s: Seq<(String, ChannelRoute)>) -> Seq<ChannelRoute> {
    Seq::new(s.len(), |i: int| s[i].1)
}

/// The members that a word on presence goes to: those that the overlay names,
/// and others of the directory in an order left to chance.
pub fn gather_targets(targets: Vec<ChannelRoute>, directory: &Table<String, ChannelRoute>, own: &[u8; 32]) -> (r: Vec<ChannelRoute>)
    ensures
        exists|roster: Seq<ChannelRoute>| #[trigger]
            roster.to_multiset() == routes_of(directory.entries@).to_multiset() && r@ == targets_with(
                targets@,
                roster,
                asked(directory.entries@.len()),
                *own,
            ),
{
    let mut roster: Vec<ChannelRoute> = Vec::new();
    let mut i: usize = 0;
    while i < directory.entries.len()
        invariant
            i <= directory.entries.len(),
            roster@.len() == i,
            forall|j: int| 0 <= j < i ==> roster@[j] == directory.entries@[j].1,
        decreases directory.entries.len() - i,
    {
        roster.push(directory.entries[i].1);
        i += 1;
    }
    assert(roster@ =~= routes_of(directory.entries@));
    let ghost before = roster@;
    shuffle_routes(&mut roster);
    proof {
        before.to_multiset_ensures();
        roster@.to_multiset_ensures();
    }
    add_targets(targets, &roster, own)
}

/// Why a word on presence cannot go to a channel.
pub open spec fn word_refusal(st: NodeState, channel: Seq<char>, mode: PresenceMode, lease_valid: bool) -> Option<Error> {
    if mode != PresenceMode::Invisible && !views(st.presence.channel_opt_in@).contains(channel) {
        Some(Error::ChannelPresenceNotOptedIn)
    } else if st.next_direct_sequence == u64::MAX {
        Some(Error::PresenceSequenceExhausted)
    } else if !lease_valid {
        Some(Error::InvalidChannelPresenceLease)
    } else {
        match st.channels.lookup(channel) {
            None => Some(Error::NoChannel),
            Some(c) => if c.membership_outbox is Some {
                Some(Error::MembershipConverging)
            } else {
                None
            },
        }
    }
}

/// Checks that a word on presence may go to a channel, and gives the number that
/// it goes under. `lease_valid` says whether it can be encoded.
pub fn plan_channel_presence(st: &NodeState, channel: &String, mode: PresenceMode, lease_valid: bool) -> (r: Result<u64, Error>)
    ensures
        r == (match word_refusal(*st, channel@, mode, lease_valid) {
            Some(e) => Err::<u64, Error>(e),
            None => Ok::<u64, Error>(st.next_direct_sequence),
        }),
{
    if mode != PresenceMode::Invisible && !among(&st.presence.channel_opt_in, channel) {
        return Err(Error::ChannelPresenceNotOptedIn);
    }
    if st.next_direct_sequence == u64::MAX {
        return Err(Error::PresenceSequenceExhausted);
    }
    if !lease_valid {
        return Err(Error::InvalidChannelPresenceLease);
    }
    match st.channels.get(channel) {
        None => Err(Error::NoChannel),
        Some(c) => {
            if c.membership_outbox.is_some() {
                Err(Error::MembershipConverging)
            } else {
                Ok(st.next_direct_sequence)
            }
        },
    }
}

/// What a word on presence that could not be kept gives back.
#[derive(Debug)]
pub struct PresenceCheckpoint {
    pub counter: u64,
    /// The sealed role of the channel before the word was sent.
    pub blob: Vec<u8>,
}

/// A state with the role of one channel, and its next number, replaced.
pub open spec fn with_role(st: NodeState, place: int, blob: Vec<u8>, next: u64, t: NodeState) -> bool {
    let (name, c) = st.channels.entries@[place];
    &&& t.channels.entries@ == st.channels.entries@.update(place, (name, ChannelState { blob, ..c }))
    &&& t == (NodeState { channels: t.channels, next_direct_sequence: next, ..st })
}

fn replace_role(st: &mut NodeState, at: usize, blob: Vec<u8>, next: u64) -> (r: Vec<u8>)
    requires
        at < old(st).channels.entries@.len(),
    ensures
        with_role(*old(st), at as int, blob, next, *final(st)),
        r == old(st).channels.entries@[at as int].1.blob,
{
    let ghost before = st.channels.entries@;
    let (name, c) = st.channels.entries.remove(at);
    let mut c = c;
    let ghost kept = c;
    let mut old_blob = blob;
    let ghost given = blob;
    std::mem::swap(&mut c.blob, &mut old_blob);
    assert(c == (ChannelState { blob: given, ..kept }));
    st.channels.entries.insert(at, (name, c));
    st.next_direct_sequence = next;
    assert(st.channels.entries@ =~= before.update(at as int, (name, c)));
    old_blob
}

/// Takes up the role as it is after sending, and the next number. What it gives
/// back undoes both.
pub fn stage_channel_presence(st: &mut NodeState, channel: &String, blob: Vec<u8>) -> (r: Result<PresenceCheckpoint, Error>)
    requires
        old(st).next_direct_sequence < u64::MAX,
    ensures
        match r {
            Ok(checkpoint) => {
                &&& old(st).channels.has(channel@)
                &&& checkpoint.counter == old(st).next_direct_sequence
                &&& checkpoint.blob == old(st).channels.at(channel@).blob
                &&& with_role(
                    *old(st),
                    place(old(st).channels.keys(), channel@),
                    blob,
                    (old(st).next_direct_sequence + 1) as u64,
                    *final(st),
                )
            },
            Err(e) => e == Error::NoChannel && !old(st).channels.has(channel@) && *final(st) == *old(st),
        },
{
    match st.channels.find(channel) {
        Some(at) => {
            let counter: u64 = st.next_direct_sequence;
            let old_blob = replace_role(st, at, blob, counter + 1);
            Ok(PresenceCheckpoint { counter, blob: old_blob })
        },
        None => Err(Error::NoChannel),
    }
}

/// Undoes a staged word after it could not be kept.
pub fn rollback_channel_presence(st: &mut NodeState, channel: &String, checkpoint: PresenceCheckpoint) -> (r: Result<(), Error>)
    ensures
        match r {
            Ok(()) => old(st).channels.has(channel@) && with_role(
                *old(st),
                place(old(st).channels.keys(), channel@),
                checkpoint.blob,
                checkpoint.counter,
                *final(st),
            ),
            Err(e) => e == Error::NoChannel && !old(st).channels.has(channel@) && *final(st) == *old(st),
        },
{
    match st.channels.find(channel) {
        Some(at) => {
            replace_role(st, at, checkpoint.blob, checkpoint.counter);
            Ok(())
        },
        None => Err(Error::NoChannel),
    }
}

/// A word on presence that could not be kept leaves nothing behind: what
/// staging changed, rolling back puts right.
pub proof fn rollback_undoes_staging(a: NodeState, b: NodeState, c: NodeState, channel: Seq<char>, blob: Vec<u8>)
    requires
        a.channels.has(channel),
        a.next_direct_sequence < u64::MAX,
        with_role(a, place(a.channels.keys(), channel), blob, (a.next_direct_sequence + 1) as u64, b),
        with_role(b, place(b.channels.keys(), channel), a.channels.at(channel).blob, a.next_direct_sequence, c),
    ensures
        c.channels.entries@ == a.channels.entries@,
        c == (NodeState { channels: c.channels, ..a }),
{
    lemma_place(a.channels.keys(), channel);
    assert(b.channels.keys() =~= a.channels.keys());
    let p = place(a.channels.keys(), channel);
    let (name, x) = a.channels.entries@[p];
    assert(ChannelState { blob: x.blob, ..(ChannelState { blob, ..x }) } == x);
    assert(c.channels.entries@ =~= a.channels.entries@);
}

/// What is said once a word went to its targets: how many could not be reached.
pub fn presence_outcome(failures: usize) -> (r: Result<(), usize>)
    ensures
        r is Ok <==> failures == 0,
        r matches Err(n) ==> n == failures,
{
    if failures == 0 {
        Ok(())
    } else {
        Err(failures)
    }
}

/// Whether a word on presence may go to a peer, by whether the user opted in for it.
pub open spec fn direct_word(opted_in: bool, mode: PresenceMode) -> Result<(), Error> {
    if mode != PresenceMode::Invisible && !opted_in {
        Err(Error::DirectPresenceNotOptedIn)
    } else {
        Ok(())
    }
}

/// Checks that a word on presence may go to a peer: only to those opted in for,
/// unless it takes presence back.
pub fn plan_direct_presence(st: &NodeState, peer_pk: &Vec<u8>, mode: PresenceMode) -> (r: Result<(), Error>)
    ensures
        r == direct_word(views(st.presence.direct_opt_in@).contains(peer_pk@), mode),
{
    if mode != PresenceMode::Invisible && !among(&st.presence.direct_opt_in, peer_pk) {
        return Err(Error::DirectPresenceNotOptedIn);
    }
    Ok(())
}

/// A word counts once: after one was taken, no word with its number or a lower
/// one is.
pub proof fn a_word_counts_once(before: Table<Vec<u8>, u64>, after: Table<Vec<u8>, u64>, peer: Seq<u8>, counter: u64, later: u64)
    requires
        counter > last_word(before.lookup(peer)),
        set_in(before, peer, Some(counter), after),
    ensures
        later <= last_word(after.lookup(peer)) <==> later <= counter,
{
}

/// Nobody is believed in beyond their lease: what was known of a peer is gone
/// once the lease is over, and stays as it was until then.
pub proof fn a_lease_bounds_belief<K: Key>(
    before: Table<K, PresenceObservation>,
    seen: Table<K, PresenceObservation>,
    after: Table<K, PresenceObservation>,
    key: K::V,
    reachability: Reachability,
    start: Instant,
    lease_secs: u64,
    now: Instant,
)
    requires
        leasable(start, lease_secs),
        set_in(before, key, Some(seen_until(reachability, start, lease_secs)), seen),
        left_out(seen, after, Expired { now }),
    ensures
        after.lookup(key) is None <==> now.nanos >= start.nanos + lease_secs * 1_000_000_000,
        after.lookup(key) is Some ==> after.lookup(key)->0.reachability == reachability,
{
    let o = seen_until(reachability, start, lease_secs);
    assert(seen.lookup(key) == Some(o));
    assert(<Expired as Leaving<K>>::leaves(Expired { now }, key, o) == (o.expires.nanos <= now.nanos));
}

/// A newer word is believed as it was said, from someone whom the user opted in
/// for: a peer that is recently reachable is held to be so until its lease is over,
/// one that is away to be away, and of one that would be invisible nothing is held.
/// Of anyone else nothing is held, whatever the word.
pub proof fn words_are_believed_as_said<K: Key>(
    before: Table<K, PresenceObservation>,
    after: Table<K, PresenceObservation>,
    key: K::V,
    opted_in: bool,
    mode: PresenceMode,
    now: Instant,
    lease_secs: u32,
)
    requires
        leasable(now, lease_secs as u64),
        set_in(before, key, told(opted_in, mode, now, lease_secs), after),
    ensures
        opted_in && mode == PresenceMode::RecentlyReachable ==> (after.lookup(key) matches Some(o) && o.reachability
            == Reachability::RecentlyReachable && o.expires.nanos == now.nanos + lease_secs * 1_000_000_000),
        opted_in && mode == PresenceMode::Away ==> (after.lookup(key) matches Some(o) && o.reachability == Reachability::Away
            && o.expires.nanos == now.nanos + lease_secs * 1_000_000_000),
        opted_in && mode == PresenceMode::Invisible ==> after.lookup(key) is None,
        !opted_in ==> after.lookup(key) is None,
        forall|k: K::V| k != key ==> #[trigger] after.lookup(k) == before.lookup(k),
{
}

/// What a word makes known is what changed: the new reachability where it differs
/// from what was held, that nothing is known where something was, and else nothing.
pub proof fn only_changes_are_news(before: Option<PresenceObservation>, opted_in: bool, mode: PresenceMode, now: Instant, lease_secs: u32)
    ensures
        match (before, told(opted_in, mode, now, lease_secs)) {
            (Some(old_word), Some(new_word)) => news(before, opted_in, mode) == (if old_word.reachability == new_word.reachability {
                None
            } else {
                Some(new_word.reachability)
            }),
            (None, Some(new_word)) => news(before, opted_in, mode) == Some(new_word.reachability),
            (Some(_), None) => news(before, opted_in, mode) == Some(Reachability::Unknown),
            (None, None) => news(before, opted_in, mode) is None,
        },
{
}

/// What is held of someone is news exactly where nothing or something else was held.
pub proof fn news_is_what_differs(before: Option<PresenceObservation>, reachability: Reachability)
    ensures
        is_news(before, reachability) <==> !(before matches Some(o) && o.reachability == reachability),
{
}

/// The first word of anyone counts, unless it has the number nought. After that only a
/// word with a higher number does; one that was taken is not taken twice.
pub proof fn the_first_word_counts(counter: u64, taken: u64)
    ensures
        is_newer(counter, None) <==> counter > 0,
        is_newer(counter, Some(taken)) <==> counter > taken,
        !is_newer(counter, Some(counter)),
{
}

/// An end of belief leaves those whose lease goes on, and nobody else.
pub proof fn expiry_is_by_the_lease<K: Key>(before: Table<K, PresenceObservation>, after: Table<K, PresenceObservation>, now: Instant, key: K::V)
    requires
        left_out(before, after, Expired { now }),
    ensures
        before.lookup(key) is None ==> after.lookup(key) is None,
        before.lookup(key) matches Some(o) && o.expires.nanos > now.nanos ==> after.lookup(key) == before.lookup(key),
        before.lookup(key) matches Some(o) && o.expires.nanos <= now.nanos ==> after.lookup(key) is None,
{
}

/// Clearing a channel forgets its members, all of them, and nobody elsewhere.
pub proof fn clearing_is_by_the_channel<'a>(
    before: Table<MemberKey, PresenceObservation>,
    after: Table<MemberKey, PresenceObservation>,
    channel: &'a String,
    name: Seq<char>,
    member_id: [u8; 32],
)
    requires
        left_out(before, after, OfChannel { channel }),
    ensures
        name == channel@ ==> after.lookup((name, member_id)) is None,
        name != channel@ ==> after.lookup((name, member_id)) == before.lookup((name, member_id)),
{
}

/// Everyone who is no longer believed in is made known as unknown, once.
pub proof fn every_end_is_made_known<K: Key>(before: Table<K, PresenceObservation>, now: Instant, key: K::V)
    requires
        before.wf(),
    ensures
        leavers(before.entries@, before.entries@.len(), Expired { now }).contains(key) <==> (before.lookup(key) matches Some(o)
            && o.expires.nanos <= now.nanos),
        distinct(leavers(before.entries@, before.entries@.len(), Expired { now })),
{
    let s = before.entries@;
    let l = Expired { now };
    lemma_leavers(s, s.len(), l, key);
    lemma_leavers_once(s, s.len(), l);
    lemma_place(before.keys(), key);
    if before.has(key) {
        let p = place(before.keys(), key);
        assert(s[p].0@ == key);
        assert forall|i: int| 0 <= i < s.len() && (#[trigger] s[i]).0@ == key implies i == p by {
            assert(before.keys()[i] == before.keys()[p]);
        }
    } else {
        assert forall|i: int| 0 <= i < s.len() implies (#[trigger] s[i]).0@ != key by {
            assert(before.keys()[i] == s[i].0@);
        }
    }
}

proof fn lemma_leavers_once<K: Key, L: Leaving<K>>(s: Seq<(K, PresenceObservation)>, n: nat, l: L)
    requires
        n <= s.len(),
        distinct(keys_of(s)),
    ensures
        distinct(leavers(s, n, l)),
    decreases n,
{
    if n > 0 {
        let m = (n - 1) as nat;
        lemma_leavers_once(s, m, l);
        let before = leavers(s, m, l);
        if l.leaves(s[m as int].0@, s[m as int].1) {
            assert forall|i: int| 0 <= i < before.len() implies before[i] != s[m as int].0@ by {
                lemma_leavers(s, m, l, before[i]);
                let j = choose|j: int| 0 <= j < m && (#[trigger] s[j]).0@ == before[i] && l.leaves(before[i], s[j].1);
                assert(keys_of(s)[j] != keys_of(s)[m as int]);
            }
        }
    }
}

/// What is made known of those no longer believed in: of each, that nothing is
/// known.
pub proof fn ends_are_unknown(peers: Seq<Seq<u8>>, members: Seq<(Seq<char>, [u8; 32])>)
    ensures
        peers_unknown(peers).len() == peers.len(),
        forall|i: int|
            0 <= i < peers.len() ==> #[trigger] peers_unknown(peers)[i] == (PresenceEventView::Peer {
                peer_pk: peers[i],
                reachability: Reachability::Unknown,
            }),
        members_unknown(members).len() == members.len(),
        forall|i: int|
            0 <= i < members.len() ==> (#[trigger] members_unknown(members)[i] matches PresenceEventView::Member {
                channel,
                member_id,
                reachability,
            } && (channel, member_id) == members[i] && reachability == Reachability::Unknown),
{
}

proof fn lemma_targets(targets: Seq<ChannelRoute>, roster: Seq<ChannelRoute>, n: nat, own: [u8; 32])
    requires
        n <= roster.len(),
    ensures
        targets.len() <= targets_with(targets, roster, n, own).len() <= targets.len() + n,
        forall|i: int| 0 <= i < targets.len() ==> #[trigger] targets_with(targets, roster, n, own)[i] == targets[i],
        forall|j: int|
            0 <= j < n && (#[trigger] roster[j]).pseudonym != own ==> targeted(targets_with(targets, roster, n, own), roster[j].pseudonym),
        forall|i: int|
            targets.len() <= i < targets_with(targets, roster, n, own).len() ==> {
                let route = #[trigger] targets_with(targets, roster, n, own)[i];
                route.pseudonym != own && !targeted(targets_with(targets, roster, n, own).take(i), route.pseudonym) && exists|j: int|
                    0 <= j < n && #[trigger] roster[j] == route
            },
    decreases n,
{
    if n > 0 {
        let m = (n - 1) as nat;
        lemma_targets(targets, roster, m, own);
        let before = targets_with(targets, roster, m, own);
        let after = targets_with(targets, roster, n, own);
        let route = roster[m as int];
        if after.len() > before.len() {
            assert(after == before.push(route));
            assert(after.take(before.len() as int) =~= before);
            assert(after[before.len() as int].pseudonym == route.pseudonym);
        }
        assert forall|j: int| 0 <= j < n && (#[trigger] roster[j]).pseudonym != own implies targeted(after, roster[j].pseudonym) by {
            if j < m {
                let i = choose|i: int| 0 <= i < before.len() && (#[trigger] before[i]).pseudonym == roster[j].pseudonym;
                assert(after[i] == before[i]);
            } else if after.len() == before.len() {
                assert(after == before);
            }
        }
        assert forall|i: int| targets.len() <= i < after.len() implies {
            let route = #[trigger] after[i];
            route.pseudonym != own && !targeted(after.take(i), route.pseudonym) && exists|j: int| 0 <= j < n && #[trigger] roster[j] == route
        } by {
            if i < before.len() {
                assert(after[i] == before[i]);
                assert(after.take(i) =~= before.take(i));
                let j = choose|j: int| 0 <= j < m && #[trigger] roster[j] == before[i];
                assert(roster[j] == after[i]);
            } else {
                assert(roster[m as int] == after[i]);
            }
        }
    }
}

/// Whom a word goes to: those that the overlay named stay in front, as they were;
/// everyone else of the first sixty-four of the roster is reached, with a route of
/// the roster; and nobody is added twice, nor this node itself.
pub proof fn everyone_is_told_once(targets: Seq<ChannelRoute>, roster: Seq<ChannelRoute>, own: [u8; 32])
    ensures
        ({
            let all = targets_with(targets, roster, asked(roster.len()), own);
            &&& targets.len() <= all.len() <= targets.len() + 64
            &&& forall|i: int| 0 <= i < targets.len() ==> #[trigger] all[i] == targets[i]
            &&& forall|j: int|
                0 <= j < roster.len() && j < 64 && (#[trigger] roster[j]).pseudonym != own ==> exists|i: int|
                    0 <= i < all.len() && (#[trigger] all[i]).pseudonym == roster[j].pseudonym
            &&& forall|i: int| targets.len() <= i < all.len() ==> (#[trigger] all[i]).pseudonym != own && roster.contains(all[i])
            &&& forall|i: int, k: int| targets.len() <= i < all.len() && 0 <= k < i ==> (#[trigger] all[k]).pseudonym != (#[trigger] all[i]).pseudonym
        }),
{
    let n = asked(roster.len());
    lemma_targets(targets, roster, n, own);
    let all = targets_with(targets, roster, n, own);
    assert forall|j: int| 0 <= j < roster.len() && j < 64 && (#[trigger] roster[j]).pseudonym != own implies exists|i: int|
        0 <= i < all.len() && (#[trigger] all[i]).pseudonym == roster[j].pseudonym by {
        assert(targeted(all, roster[j].pseudonym));
    }
    assert forall|i: int, k: int| targets.len() <= i < all.len() && 0 <= k < i implies (#[trigger] all[k]).pseudonym != (
    #[trigger] all[i]).pseudonym by {
        assert(!targeted(all.take(i), all[i].pseudonym));
        assert(all.take(i)[k] == all[k]);
    }
}

/// A word goes to a channel exactly where it may: the user opted in for the channel
/// or the word takes presence back, a number is left, the lease can be written, and
/// the channel is there with no change of its membership under way.
pub proof fn words_go_where_they_may(st: NodeState, channel: Seq<char>, mode: PresenceMode, lease_valid: bool)
    ensures
        word_refusal(st, channel, mode, lease_valid) is None <==> {
            &&& mode == PresenceMode::Invisible || views(st.presence.channel_opt_in@).contains(channel)
            &&& st.next_direct_sequence < u64::MAX
            &&& lease_valid
            &&& st.channels.lookup(channel) matches Some(c) && c.membership_outbox is None
        },
        mode != PresenceMode::Invisible && !views(st.presence.channel_opt_in@).contains(channel) ==> word_refusal(
            st,
            channel,
            mode,
            lease_valid,
        ) == Some(Error::ChannelPresenceNotOptedIn),
        word_refusal(st, channel, mode, lease_valid) == Some(Error::PresenceSequenceExhausted) ==> st.next_direct_sequence == u64::MAX,
        word_refusal(st, channel, mode, lease_valid) == Some(Error::InvalidChannelPresenceLease) ==> !lease_valid,
        word_refusal(st, channel, mode, lease_valid) == Some(Error::NoChannel) ==> st.channels.lookup(channel) is None,
        word_refusal(st, channel, mode, lease_valid) == Some(Error::MembershipConverging) ==> (st.channels.lookup(channel) matches Some(c)
            && c.membership_outbox is Some),
{
}

/// Taking up the role that a word was sent under changes that role and the next
/// number, and nothing else of the node.
pub proof fn staging_touches_one_role(a: NodeState, b: NodeState, channel: Seq<char>, blob: Vec<u8>, next: u64)
    requires
        a.channels.has(channel),
        with_role(a, place(a.channels.keys(), channel), blob, next, b),
    ensures
        b.next_direct_sequence == next,
        b.channels.lookup(channel) matches Some(c) && c.blob == blob && c == (ChannelState { blob: c.blob, ..a.channels.at(channel) }),
        forall|k: Seq<char>| k != channel ==> #[trigger] b.channels.lookup(k) == a.channels.lookup(k),
        b == (NodeState { channels: b.channels, next_direct_sequence: b.next_direct_sequence, ..a }),
{
    let p = place(a.channels.keys(), channel);
    lemma_place(a.channels.keys(), channel);
    assert(b.channels.keys() =~= a.channels.keys());
    assert forall|k: Seq<char>| k != channel implies #[trigger] b.channels.lookup(k) == a.channels.lookup(k) by {
        lemma_place(a.channels.keys(), k);
        if a.channels.has(k) {
            let q = place(a.channels.keys(), k);
            assert(q != p);
        }
    }
}

/// Who was not opted in for is told one thing only, that presence is taken back; who
/// was is told anything.
pub proof fn peers_are_told_as_opted_in(mode: PresenceMode)
    ensures
        direct_word(true, mode) is Ok,
        direct_word(false, mode) is Ok <==> mode == PresenceMode::Invisible,
        direct_word(false, PresenceMode::Away) == Err::<(), Error>(Error::DirectPresenceNotOptedIn),
        direct_word(false, PresenceMode::RecentlyReachable) == Err::<(), Error>(Error::DirectPresenceNotOptedIn),
{
}

} // verus!
