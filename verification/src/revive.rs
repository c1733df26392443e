//! Journals come back to life: what an archive keeps of direct traffic, as the
//! node goes on with it.

use vstd::prelude::*;
use crate::archive_check::is_credited;
use crate::archive_frame::{DeliveryFrame, DeliveryView, PeerRouteFrame, PeerRouteView, PendingFrame, PendingView, ProcessedFrame, ProcessedView, SessionFrame, SessionView};
use crate::bytes::copy_bytes;
use crate::codec::Codec;
use crate::model::{copy_cells, views, NodeInfo, RelayProvision};
use crate::node_state::{DirectDelivery, PendingDirect, ProcessedDirect, ProcessedKey};
use crate::record::bytes_view;
use crate::table::{among, distinct, Key, Table};
use crate::time::{Duration, Instant};

verus! {

/// An archived entry that comes back under a key, unless its time is over.
pub trait Live<W: Copy>: View + Sized {
    type K: Key;

    type T;

    /// Whether it comes back at all.
    spec fn kept(v: Self::V, w: W) -> bool;

    /// Whether all that it names is known.
    spec fn ready(v: Self::V, w: W) -> bool;

    spec fn key(v: Self::V) -> <Self::K as View>::V;

    /// Whether a live value is what the entry comes back as.
    spec fn stands_for(v: Self::V, w: W, t: Self::T) -> bool;

    fn revive(&self, w: W) -> (r: Option<(Self::K, Self::T)>)
        requires
            Self::ready(self@, w),
        ensures
            match r {
                Some((k, t)) => Self::kept(self@, w) && k@ == Self::key(self@) && Self::stands_for(self@, w, t),
                None => !Self::kept(self@, w),
            },
    ;
}

/// Whether an entry that comes back has a key.
pub open spec fn named<W: Copy, F: Live<W>>(s: Seq<F::V>, k: <F::K as View>::V, w: W) -> bool {
    exists|i: int| 0 <= i < s.len() && F::kept(s[i], w) && F::key(#[trigger] s[i]) == k
}

/// Whether a table holds what it held before, with the entries put over it.
pub open spec fn merged<W: Copy, F: Live<W>>(before: Table<F::K, F::T>, s: Seq<F::V>, after: Table<F::K, F::T>, w: W) -> bool {
    &&& forall|i: int|
        0 <= i < s.len() && F::kept(#[trigger] s[i], w) ==> (after.lookup(F::key(s[i])) matches Some(t) && F::stands_for(s[i], w, t))
    &&& forall|k: <F::K as View>::V| !named::<W, F>(s, k, w) ==> #[trigger] after.lookup(k) == before.lookup(k)
}

/// The keys of entries.
pub open spec fn live_keys<W: Copy, F: Live<W>>(s: Seq<F::V>) -> Seq<<F::K as View>::V> {
    Seq::new(s.len(), |i: int| F::key(s[i]))
}

pub open spec fn all_ready<W: Copy, F: Live<W>>(s: Seq<F::V>, w: W) -> bool {
    forall|i: int| 0 <= i < s.len() ==> F::ready(#[trigger] s[i], w)
}

/// Puts the entries that come back over what a table holds.
pub fn merge<W: Copy, F: Live<W>>(table: &mut Table<F::K, F::T>, frames: &Vec<F>, w: W)
    requires
        old(table).wf(),
        distinct(live_keys::<W, F>(views(frames@))),
        all_ready::<W, F>(views(frames@), w),
    ensures
        final(table).wf(),
        merged::<W, F>(*old(table), views(frames@), *final(table), w),
{
    let ghost v = views(frames@);
    let ghost ks = live_keys::<W, F>(v);
    let ghost before = *table;
    let mut i: usize = 0;
    assert(v.take(0) =~= Seq::<F::V>::empty());
    while i < frames.len()
        invariant
            i <= frames.len(),
            v == views(frames@),
            ks == live_keys::<W, F>(v),
            distinct(ks),
            all_ready::<W, F>(v, w),
            table.wf(),
            merged::<W, F>(before, v.take(i as int), *table, w),
        decreases frames.len() - i,
    {
        let ghost done = v.take(i as int);
        let ghost next = v.take(i + 1);
        let ghost mid = *table;
        assert(v[i as int] == frames@[i as int]@);
        assert(next =~= done.push(v[i as int]));
        let entry = frames[i].revive(w);
        match entry {
            Some((k, t)) => {
                let ghost kv = k@;
                table.insert(k, t);
                proof {
                    assert forall|j: int| 0 <= j < next.len() && F::kept(#[trigger] next[j], w) implies (table.lookup(F::key(next[j])) matches Some(t)
                        && F::stands_for(next[j], w, t)) by {
                        if j < i {
                            assert(next[j] == done[j]);
                            assert(ks[j] != ks[i as int]);
                        } else {
                            assert(next[j] == v[i as int]);
                        }
                    }
                    assert forall|k: <F::K as View>::V| !named::<W, F>(next, k, w) implies #[trigger] table.lookup(k) == before.lookup(k) by {
                        assert(F::key(next[i as int]) == kv);
                        if named::<W, F>(done, k, w) {
                            let j = choose|j: int| 0 <= j < done.len() && F::kept(done[j], w) && F::key(#[trigger] done[j]) == k;
                            assert(F::key(next[j]) == k);
                        }
                        assert(mid.lookup(k) == before.lookup(k));
                    }
                }
            },
            None => {
                proof {
                    assert forall|j: int| 0 <= j < next.len() && F::kept(#[trigger] next[j], w) implies (table.lookup(F::key(next[j])) matches Some(t)
                        && F::stands_for(next[j], w, t)) by {
                        assert(j < i);
                        assert(next[j] == done[j]);
                    }
                    assert forall|k: <F::K as View>::V| !named::<W, F>(next, k, w) implies #[trigger] table.lookup(k) == before.lookup(k) by {
                        if named::<W, F>(done, k, w) {
                            let j = choose|j: int| 0 <= j < done.len() && F::kept(done[j], w) && F::key(#[trigger] done[j]) == k;
                            assert(F::key(next[j]) == k);
                        }
                    }
                }
            },
        }
        i += 1;
    }
    assert(v.take(i as int) =~= v);
}

/// What the revival of direct traffic goes by.
#[derive(Clone, Copy)]
pub struct Reviving<'a> {
    pub codec: &'a Codec,
    /// The relay that the node now sends through.
    pub relay: &'a RelayProvision,
    pub now: Instant,
    /// The time since the archive was written.
    pub elapsed_ms: u64,
    /// The peers whose unconfirmed session has lapsed.
    pub lapsed: &'a Vec<Vec<u8>>,
}

/// Whether the clock can count every span from now on.
pub open spec fn countable(now: Instant) -> bool {
    now.nanos + u64::MAX * 1_000_000 <= u128::MAX
}

/// What is left of a span after some time.
pub open spec fn left_of(ms: u64, elapsed_ms: u64) -> u64 {
    if ms > elapsed_ms {
        (ms - elapsed_ms) as u64
    } else {
        0
    }
}

/// A moment that many milliseconds from another.
pub open spec fn later(now: Instant, ms: u64) -> Instant {
    Instant { nanos: (now.nanos + ms * 1_000_000) as u128 }
}

pub fn after_ms(now: Instant, ms: u64) -> (r: Instant)
    requires
        countable(now),
    ensures
        r == later(now, ms),
{
    let span = Duration::from_millis(ms);
    assert(ms * 1_000_000 <= u64::MAX * 1_000_000) by (nonlinear_arith)
        requires
            ms <= u64::MAX,
    ;
    Instant { nanos: now.nanos + span.nanos }
}

/// How long ago an archive was written. One from the future counts as over.
pub open spec fn elapsed_since(exported_ms: u64, wall_ms: u64) -> u64 {
    if wall_ms < exported_ms {
        u64::MAX
    } else {
        (wall_ms - exported_ms) as u64
    }
}

pub fn elapsed_ms(exported_ms: u64, wall_ms: u64) -> (r: u64)
    ensures
        r == elapsed_since(exported_ms, wall_ms),
{
    if wall_ms < exported_ms {
        u64::MAX
    } else {
        wall_ms - exported_ms
    }
}

/// Whether a session was never confirmed and can no longer be. A credited
/// session stays.
pub open spec fn has_lapsed(v: SessionView, elapsed_ms: u64) -> bool {
    !is_credited(v.sealed) && (v.unconfirmed matches Some(ms) && ms <= elapsed_ms)
}

/// The peers of the first `n` sessions that have lapsed.
pub open spec fn lapsed_of(s: Seq<SessionView>, n: nat, elapsed_ms: u64) -> Seq<Seq<u8>>
    decreases n,
{
    if n == 0 {
        Seq::empty()
    } else if has_lapsed(s[n - 1], elapsed_ms) {
        lapsed_of(s, (n - 1) as nat, elapsed_ms).push(s[n - 1].peer)
    } else {
        lapsed_of(s, (n - 1) as nat, elapsed_ms)
    }
}

pub fn lapsed_peers(sessions: &Vec<SessionFrame>, elapsed_ms: u64) -> (r: Vec<Vec<u8>>)
    ensures
        views(r@) == lapsed_of(views(sessions@), sessions@.len(), elapsed_ms),
{
    let ghost v = views(sessions@);
    let mut out: Vec<Vec<u8>> = Vec::new();
    let mut i: usize = 0;
    assert(views(out@) =~= Seq::<Seq<u8>>::empty());
    while i < sessions.len()
        invariant
            i <= sessions.len(),
            v == views(sessions@),
            views(out@) == lapsed_of(v, i as nat, elapsed_ms),
        decreases sessions.len() - i,
    {
        assert(v[i as int] == sessions@[i as int]@);
        let unconfirmed = match sessions[i].unconfirmed {
            Some(ms) => ms <= elapsed_ms,
            None => false,
        };
        if unconfirmed && !crate::archive_check::has_credited_prefix(sessions[i].sealed.as_slice()) {
            let ghost before = views(out@);
            out.push(copy_bytes(sessions[i].peer.as_slice()));
            assert(views(out@) =~= before.push(v[i as int].peer));
        }
        i += 1;
    }
    out
}

/// Whether cells go to the peer of a card through a relay.
pub open spec fn delivers(v: DeliveryView, w: Reviving, t: DirectDelivery) -> bool {
    w.codec.card(v.card) == Some(t.peer@) && t.relay@ == w.relay@ && views(t.cells@) == v.cells
}

fn revive_delivery(d: &DeliveryFrame, w: Reviving) -> (r: Option<DirectDelivery>)
    ensures
        match r {
            Some(t) => delivers(d@, w, t),
            None => w.codec.card(d@.card) is None,
        },
{
    match w.codec.decode_card(&d.card) {
        Some(card) => Some(DirectDelivery { peer: card.clone(), relay: w.relay.clone(), cells: copy_cells(&d.cells) }),
        None => None,
    }
}

/// Whether acknowledgements are those that an archive keeps.
pub open spec fn all_deliver(s: Seq<DeliveryView>, w: Reviving, t: Seq<DirectDelivery>) -> bool {
    t.len() == s.len() && forall|i: int| 0 <= i < s.len() ==> delivers(s[i], w, #[trigger] t[i])
}

pub open spec fn cards_known(s: Seq<DeliveryView>, codec: Codec) -> bool {
    forall|i: int| 0 <= i < s.len() ==> codec.card((#[trigger] s[i]).card) is Some
}

/// The acknowledgements that an archive keeps.
pub fn revive_acks(acks: &Vec<DeliveryFrame>, w: Reviving) -> (r: Vec<DirectDelivery>)
    requires
        cards_known(views(acks@), *w.codec),
    ensures
        all_deliver(views(acks@), w, r@),
{
    let ghost v = views(acks@);
    let mut out: Vec<DirectDelivery> = Vec::new();
    let mut i: usize = 0;
    while i < acks.len()
        invariant
            i <= acks.len(),
            v == views(acks@),
            cards_known(v, *w.codec),
            out@.len() == i,
            forall|j: int| 0 <= j < i ==> delivers(v[j], w, #[trigger] out@[j]),
        decreases acks.len() - i,
    {
        assert(v[i as int] == acks@[i as int]@);
        match revive_delivery(&acks[i], w) {
            Some(d) => {
                out.push(d);
            },
            None => {
                assert(w.codec.card(v[i as int].card) is Some);
            },
        }
        i += 1;
    }
    out
}

/// Whose message it is.
pub open spec fn peer_of(v: DeliveryView, codec: Codec) -> Seq<u8> {
    codec.card(v.card)->0.identity_pk
}

impl<'a> Live<Reviving<'a>> for PendingFrame {
    type K = [u8; 16];

    type T = PendingDirect;

    open spec fn kept(v: PendingView, w: Reviving<'a>) -> bool {
        left_of(v.expiry_ms, w.elapsed_ms) > 0 && !views(w.lapsed@).contains(peer_of(v.delivery, *w.codec))
    }

    open spec fn ready(v: PendingView, w: Reviving<'a>) -> bool {
        w.codec.card(v.delivery.card) is Some && countable(w.now)
    }

    open spec fn key(v: PendingView) -> Seq<u8> {
        v.message_id@
    }

    open spec fn stands_for(v: PendingView, w: Reviving<'a>, t: PendingDirect) -> bool {
        let expiry = left_of(v.expiry_ms, w.elapsed_ms);
        let retry = left_of(v.retry_ms, w.elapsed_ms);
        &&& delivers(v.delivery, w, t.delivery)
        &&& bytes_view(t.logical_record) == v.logical
        &&& t.sequence == v.sequence
        &&& t.next_attempt == later(w.now, if retry < expiry { retry } else { expiry })
        &&& t.expires == later(w.now, expiry)
        &&& t.application_event == v.application_event
    }

    fn revive(&self, w: Reviving<'a>) -> (r: Option<([u8; 16], PendingDirect)>) {
        let delivery = match revive_delivery(&self.delivery, w) {
            Some(d) => d,
            None => {
                return None;
            },
        };
        let expiry: u64 = if self.expiry_ms > w.elapsed_ms {
            self.expiry_ms - w.elapsed_ms
        } else {
            0
        };
        let retry: u64 = if self.retry_ms > w.elapsed_ms {
            self.retry_ms - w.elapsed_ms
        } else {
            0
        };
        if expiry == 0 || among(w.lapsed, &delivery.peer.identity_pk) {
            return None;
        }
        let attempt: u64 = if retry < expiry {
            retry
        } else {
            expiry
        };
        Some(
            (
                self.message_id,
                PendingDirect {
                    delivery,
                    logical_record: match &self.logical {
                        Some(record) => Some(copy_bytes(record.as_slice())),
                        None => None,
                    },
                    sequence: self.sequence,
                    next_attempt: after_ms(w.now, attempt),
                    expires: after_ms(w.now, expiry),
                    application_event: self.application_event,
                },
            ),
        )
    }
}

impl<'a> Live<Reviving<'a>> for ProcessedFrame {
    type K = ProcessedKey;

    type T = ProcessedDirect;

    open spec fn kept(v: ProcessedView, w: Reviving<'a>) -> bool {
        true
    }

    open spec fn ready(v: ProcessedView, w: Reviving<'a>) -> bool {
        w.codec.card(v.delivery.card) is Some
    }

    open spec fn key(v: ProcessedView) -> (Seq<u8>, u64) {
        (v.peer, v.counter)
    }

    open spec fn stands_for(v: ProcessedView, w: Reviving<'a>, t: ProcessedDirect) -> bool {
        t.frame_hash == v.frame_hash && delivers(v.delivery, w, t.delivery)
    }

    fn revive(&self, w: Reviving<'a>) -> (r: Option<(ProcessedKey, ProcessedDirect)>) {
        match revive_delivery(&self.delivery, w) {
            Some(delivery) => Some(
                (
                    ProcessedKey { peer: copy_bytes(self.peer.as_slice()), counter: self.counter },
                    ProcessedDirect { frame_hash: self.frame_hash, delivery },
                ),
            ),
            None => None,
        }
    }
}

/// The cards of peers come back.
#[derive(Clone, Copy)]
pub struct Cards<'a> {
    pub codec: &'a Codec,
}

/// The generations of the cards come back.
#[derive(Clone, Copy)]
pub struct Generations<'a> {
    pub codec: &'a Codec,
}

impl<'a> Live<Cards<'a>> for PeerRouteFrame {
    type K = Vec<u8>;

    type T = NodeInfo;

    open spec fn kept(v: PeerRouteView, w: Cards<'a>) -> bool {
        true
    }

    open spec fn ready(v: PeerRouteView, w: Cards<'a>) -> bool {
        w.codec.card(v.card) is Some
    }

    open spec fn key(v: PeerRouteView) -> Seq<u8> {
        v.peer
    }

    open spec fn stands_for(v: PeerRouteView, w: Cards<'a>, t: NodeInfo) -> bool {
        w.codec.card(v.card) == Some(t@)
    }

    fn revive(&self, w: Cards<'a>) -> (r: Option<(Vec<u8>, NodeInfo)>) {
        match w.codec.decode_card(&self.card) {
            Some(card) => Some((copy_bytes(self.peer.as_slice()), card.clone())),
            None => None,
        }
    }
}

impl<'a> Live<Generations<'a>> for PeerRouteFrame {
    type K = Vec<u8>;

    type T = u64;

    open spec fn kept(v: PeerRouteView, w: Generations<'a>) -> bool {
        true
    }

    open spec fn ready(v: PeerRouteView, w: Generations<'a>) -> bool {
        true
    }

    open spec fn key(v: PeerRouteView) -> Seq<u8> {
        v.peer
    }

    open spec fn stands_for(v: PeerRouteView, w: Generations<'a>, t: u64) -> bool {
        t == v.generation
    }

    fn revive(&self, w: Generations<'a>) -> (r: Option<(Vec<u8>, u64)>) {
        Some((copy_bytes(self.peer.as_slice()), self.generation))
    }
}

/// The keys of taken frames, after those that were there.
pub fn extend_order(order: &mut Vec<ProcessedKey>, frames: &Vec<ProcessedFrame>)
    ensures
        views(final(order)@) == views(old(order)@) + Seq::new(
            frames@.len(),
            |i: int| (views(frames@)[i].peer, views(frames@)[i].counter),
        ),
{
    let ghost v = views(frames@);
    let ghost before = views(order@);
    let mut i: usize = 0;
    assert(views(order@) =~= before + Seq::<(Seq<u8>, u64)>::new(0, |i: int| (v[i].peer, v[i].counter)));
    while i < frames.len()
        invariant
            i <= frames.len(),
            v == views(frames@),
            views(order@) == before + Seq::new(i as nat, |i: int| (v[i].peer, v[i].counter)),
        decreases frames.len() - i,
    {
        assert(v[i as int] == frames@[i as int]@);
        let ghost mid = views(order@);
        order.push(ProcessedKey { peer: copy_bytes(frames[i].peer.as_slice()), counter: frames[i].counter });
        assert(views(order@) =~= mid.push((v[i as int].peer, v[i as int].counter)));
        assert(views(order@) =~= before + Seq::new((i + 1) as nat, |i: int| (v[i].peer, v[i].counter)));
        i += 1;
    }
}

} // verus!
