//! How much payload the node holds for direct traffic: every copy of a cell that
//! waits, every record behind one, and what credited sessions keep for repair.

use vstd::prelude::*;
use crate::bytes::same_bytes;
use crate::error::Error;
use crate::model::Cell;
use crate::node_state::{DirectDelivery, NodeState, PayloadUsage, PeerSession, PendingDirect, ProcessedDirect, ProcessedKey, Snapshot};

verus! {

pub open spec fn capped(n: nat) -> usize {
    if n <= usize::MAX {
        n as usize
    } else {
        usize::MAX
    }
}

pub open spec fn none_held() -> PayloadUsage {
    PayloadUsage { items: 0, bytes: 0 }
}

impl PayloadUsage {
    /// Two holdings together.
    pub open spec fn plus(self, other: PayloadUsage) -> PayloadUsage {
        PayloadUsage {
            items: capped((self.items + other.items) as nat),
            bytes: capped((self.bytes + other.bytes) as nat),
        }
    }

    pub fn add_usage(&mut self, other: PayloadUsage)
        ensures
            *final(self) == old(self).plus(other),
    {
        self.items = self.items.saturating_add(other.items);
        self.bytes = self.bytes.saturating_add(other.bytes);
    }
}

/// What the first `n` cells hold.
pub open spec fn cells_usage(cells: Seq<Cell>, n: nat) -> PayloadUsage
    decreases n,
{
    if n == 0 {
        none_held()
    } else {
        cells_usage(cells, (n - 1) as nat).plus(PayloadUsage { items: 1, bytes: capped(cells[n - 1].payload@.len()) })
    }
}

pub open spec fn delivery_usage(d: DirectDelivery) -> PayloadUsage {
    cells_usage(d.cells@, d.cells@.len())
}

pub open spec fn pending_usage(p: PendingDirect) -> PayloadUsage {
    match p.logical_record {
        Some(record) => delivery_usage(p.delivery).plus(PayloadUsage { items: 1, bytes: capped(record@.len()) }),
        None => delivery_usage(p.delivery),
    }
}

impl DirectDelivery {
    /// One item for each cell, and the bytes of their payloads.
    pub fn retained_payload(&self) -> (r: PayloadUsage)
        ensures
            r == delivery_usage(*self),
    {
        let mut usage = PayloadUsage { items: 0, bytes: 0 };
        let mut i: usize = 0;
        while i < self.cells.len()
            invariant
                i <= self.cells.len(),
                usage == cells_usage(self.cells@, i as nat),
            decreases self.cells.len() - i,
        {
            usage.add_usage(PayloadUsage { items: 1, bytes: self.cells[i].payload.len() });
            i += 1;
        }
        usage
    }
}

impl PendingDirect {
    /// The cells, and the record behind them where it is kept.
    pub fn retained_payload(&self) -> (r: PayloadUsage)
        ensures
            r == pending_usage(*self),
    {
        let mut usage = self.delivery.retained_payload();
        match &self.logical_record {
            Some(record) => {
                usage.add_usage(PayloadUsage { items: 1, bytes: record.len() });
            },
            None => {},
        }
        usage
    }
}

/// What a sealed session keeps for repair, once it has been authenticated. One
/// without credit keeps nothing.
pub open spec fn snapshot_usage(s: Snapshot) -> Result<PayloadUsage, Error> {
    if s.tag is None {
        Ok(none_held())
    } else {
        match s.usage {
            Some(usage) => Ok(usage),
            None => Err(Error::UnauthenticatedSession),
        }
    }
}

impl Snapshot {
    pub fn retained_payload(&self) -> (r: Result<PayloadUsage, Error>)
        ensures
            r == snapshot_usage(*self),
    {
        if self.tag.is_none() {
            return Ok(PayloadUsage { items: 0, bytes: 0 });
        }
        match self.usage {
            Some(usage) => Ok(usage),
            None => Err(Error::UnauthenticatedSession),
        }
    }
}

/// What a session keeps, or the one that is to replace it.
pub open spec fn session_usage(peer: Seq<u8>, session: PeerSession, replaced: Option<(&Vec<u8>, &Snapshot)>) -> Result<PayloadUsage, Error> {
    match replaced {
        Some((key, snapshot)) => if key@ == peer {
            snapshot_usage(*snapshot)
        } else {
            Ok(session.kept())
        },
        None => Ok(session.kept()),
    }
}

/// What the first `n` sessions keep.
pub open spec fn sessions_usage(s: Seq<(Vec<u8>, PeerSession)>, n: nat, replaced: Option<(&Vec<u8>, &Snapshot)>) -> Result<PayloadUsage, Error>
    decreases n,
{
    if n == 0 {
        Ok(none_held())
    } else {
        match sessions_usage(s, (n - 1) as nat, replaced) {
            Err(e) => Err(e),
            Ok(before) => match session_usage(s[n - 1].0@, s[n - 1].1, replaced) {
                Err(e) => Err(e),
                Ok(usage) => Ok(before.plus(usage)),
            },
        }
    }
}

pub open spec fn all_pending_usage(s: Seq<([u8; 16], PendingDirect)>, n: nat, before: PayloadUsage) -> PayloadUsage
    decreases n,
{
    if n == 0 {
        before
    } else {
        all_pending_usage(s, (n - 1) as nat, before).plus(pending_usage(s[n - 1].1))
    }
}

pub open spec fn acks_usage(s: Seq<DirectDelivery>, n: nat, before: PayloadUsage) -> PayloadUsage
    decreases n,
{
    if n == 0 {
        before
    } else {
        acks_usage(s, (n - 1) as nat, before).plus(delivery_usage(s[n - 1]))
    }
}

pub open spec fn processed_usage(s: Seq<(ProcessedKey, ProcessedDirect)>, n: nat, before: PayloadUsage) -> PayloadUsage
    decreases n,
{
    if n == 0 {
        before
    } else {
        processed_usage(s, (n - 1) as nat, before).plus(delivery_usage(s[n - 1].1.delivery))
    }
}

/// What sessions, messages, acknowledgements and taken frames hold together.
pub open spec fn direct_usage(
    sessions: Seq<(Vec<u8>, PeerSession)>,
    pending: Seq<([u8; 16], PendingDirect)>,
    acks: Seq<DirectDelivery>,
    processed: Seq<(ProcessedKey, ProcessedDirect)>,
    replaced: Option<(&Vec<u8>, &Snapshot)>,
) -> Result<PayloadUsage, Error> {
    match sessions_usage(sessions, sessions.len(), replaced) {
        Err(e) => Err(e),
        Ok(kept) => Ok(
            processed_usage(
                processed,
                processed.len(),
                acks_usage(acks, acks.len(), all_pending_usage(pending, pending.len(), kept)),
            ),
        ),
    }
}

proof fn lemma_usage_stops(s: Seq<(Vec<u8>, PeerSession)>, m: nat, n: nat, replaced: Option<(&Vec<u8>, &Snapshot)>)
    requires
        m <= n,
        sessions_usage(s, m, replaced) is Err,
    ensures
        sessions_usage(s, n, replaced) == sessions_usage(s, m, replaced),
    decreases n,
{
    if m < n {
        lemma_usage_stops(s, m, (n - 1) as nat, replaced);
    }
}

fn sum_sessions(sessions: &Vec<(Vec<u8>, PeerSession)>, replaced: Option<(&Vec<u8>, &Snapshot)>) -> (r: Result<PayloadUsage, Error>)
    ensures
        r == sessions_usage(sessions@, sessions@.len(), replaced),
{
    let mut usage = PayloadUsage { items: 0, bytes: 0 };
    let mut i: usize = 0;
    while i < sessions.len()
        invariant
            i <= sessions.len(),
            sessions_usage(sessions@, i as nat, replaced) == Ok::<PayloadUsage, Error>(usage),
        decreases sessions.len() - i,
    {
        let one = match replaced {
            Some((key, snapshot)) => {
                if same_bytes(key.as_slice(), sessions[i].0.as_slice()) {
                    snapshot.retained_payload()
                } else {
                    Ok(sessions[i].1.retained_payload())
                }
            },
            None => Ok(sessions[i].1.retained_payload()),
        };
        match one {
            Ok(one) => {
                usage.add_usage(one);
            },
            Err(e) => {
                proof {
                    lemma_usage_stops(sessions@, (i + 1) as nat, sessions@.len(), replaced);
                }
                return Err(e);
            },
        }
        i += 1;
    }
    Ok(usage)
}

/// Counts what direct traffic holds.
pub fn count_usage(
    sessions: &Vec<(Vec<u8>, PeerSession)>,
    pending: &Vec<([u8; 16], PendingDirect)>,
    acks: &Vec<DirectDelivery>,
    processed: &Vec<(ProcessedKey, ProcessedDirect)>,
    replaced: Option<(&Vec<u8>, &Snapshot)>,
) -> (r: Result<PayloadUsage, Error>)
    ensures
        r == direct_usage(sessions@, pending@, acks@, processed@, replaced),
{
    let mut usage = match sum_sessions(sessions, replaced) {
        Ok(usage) => usage,
        Err(e) => {
            return Err(e);
        },
    };
    let ghost kept = usage;
    let mut i: usize = 0;
    while i < pending.len()
        invariant
            i <= pending.len(),
            usage == all_pending_usage(pending@, i as nat, kept),
        decreases pending.len() - i,
    {
        usage.add_usage(pending[i].1.retained_payload());
        i += 1;
    }
    let ghost kept = usage;
    let mut i: usize = 0;
    while i < acks.len()
        invariant
            i <= acks.len(),
            usage == acks_usage(acks@, i as nat, kept),
        decreases acks.len() - i,
    {
        usage.add_usage(acks[i].retained_payload());
        i += 1;
    }
    let ghost kept = usage;
    let mut i: usize = 0;
    while i < processed.len()
        invariant
            i <= processed.len(),
            usage == processed_usage(processed@, i as nat, kept),
        decreases processed.len() - i,
    {
        usage.add_usage(processed[i].1.delivery.retained_payload());
        i += 1;
    }
    Ok(usage)
}

/// What is asked of the account that bounds the payload of a node: whether
/// control traffic asks, and for how much.
#[derive(Clone, Copy, Debug, PartialEq, Eq, Structural)]
pub struct RetainedRequest {
    pub usage: PayloadUsage,
    pub control: bool,
}

impl NodeState {
    pub open spec fn usage(self, replaced: Option<(&Vec<u8>, &Snapshot)>) -> Result<PayloadUsage, Error> {
        direct_usage(
            self.sessions.entries@,
            self.pending_1to1.entries@,
            self.direct_ack_outbox@,
            self.processed_direct.entries@,
            replaced,
        )
    }

    /// What the direct traffic of this node holds, with one session replaced
    /// where a replacement is given.
    pub fn retained_payload(&self, replaced: Option<(&Vec<u8>, &Snapshot)>) -> (r: Result<PayloadUsage, Error>)
        ensures
            r == self.usage(replaced),
    {
        count_usage(
            &self.sessions.entries,
            &self.pending_1to1.entries,
            &self.direct_ack_outbox,
            &self.processed_direct.entries,
            replaced,
        )
    }

    /// What is to be asked for a holding. Without credited sessions nothing is
    /// accounted.
    pub fn stage_retained_usage(&self, usage: PayloadUsage, control: bool) -> (r: Option<RetainedRequest>)
        ensures
            r == (if self.gc2_sessions {
                Some(RetainedRequest { usage, control })
            } else {
                None
            }),
    {
        if !self.gc2_sessions {
            return None;
        }
        Some(RetainedRequest { usage, control })
    }

    /// What is to be asked for what the node holds now.
    pub fn stage_retained(&self, replaced: Option<(&Vec<u8>, &Snapshot)>, control: bool) -> (r: Result<Option<RetainedRequest>, Error>)
        ensures
            r == (if !self.gc2_sessions {
                Ok::<Option<RetainedRequest>, Error>(None)
            } else {
                match self.usage(replaced) {
                    Ok(usage) => Ok::<Option<RetainedRequest>, Error>(Some(RetainedRequest { usage, control })),
                    Err(e) => Err::<Option<RetainedRequest>, Error>(e),
                }
            }),
    {
        if !self.gc2_sessions {
            return Ok(None);
        }
        match self.retained_payload(replaced) {
            Ok(usage) => Ok(self.stage_retained_usage(usage, control)),
            Err(e) => Err(e),
        }
    }

    /// The request that gives back what was removed: control traffic asking for
    /// what is left.
    pub fn release_removed_direct_payload(&self) -> (r: Result<Option<RetainedRequest>, Error>)
        ensures
            r == (if !self.gc2_sessions {
                Ok::<Option<RetainedRequest>, Error>(None)
            } else {
                match self.usage(None) {
                    Ok(usage) => Ok::<Option<RetainedRequest>, Error>(Some(RetainedRequest { usage, control: true })),
                    Err(e) => Err::<Option<RetainedRequest>, Error>(e),
                }
            }),
    {
        self.stage_retained(None, true)
    }
}

/// The sum of numbers.
pub open spec fn sum(s: Seq<nat>) -> nat
    decreases s.len(),
{
    if s.len() == 0 {
        0
    } else {
        sum(s.drop_last()) + s.last()
    }
}

/// Holdings are added up and capped only where they no longer can be counted, whatever
/// the order: capping on the way changes nothing.
pub proof fn capping_on_the_way_changes_nothing(a: nat, b: nat)
    ensures
        capped(a) as int == (if a <= usize::MAX { a as int } else { usize::MAX as int }),
        capped((capped(a) + b) as nat) == capped(a + b),
        capped((capped(a) + capped(b)) as nat) == capped(a + b),
{
}

proof fn lemma_cells(cells: Seq<Cell>, n: nat)
    requires
        n <= cells.len(),
    ensures
        cells_usage(cells, n).items == capped(n),
        cells_usage(cells, n).bytes == capped(sum(Seq::new(n, |i: int| cells[i].payload@.len()))),
    decreases n,
{
    let lens = Seq::new(n, |i: int| cells[i].payload@.len());
    if n > 0 {
        lemma_cells(cells, (n - 1) as nat);
        assert(lens.drop_last() =~= Seq::new((n - 1) as nat, |i: int| cells[i].payload@.len()));
        assert(lens.last() == cells[n - 1].payload@.len());
    }
}

/// A delivery holds one item for each cell and the bytes of all their payloads; a
/// message that waits holds its record too, as one more item.
pub proof fn deliveries_hold_their_cells(p: PendingDirect)
    ensures
        ({
            let cells = p.delivery.cells@;
            let bytes = sum(Seq::new(cells.len(), |i: int| cells[i].payload@.len()));
            &&& delivery_usage(p.delivery).items == capped(cells.len())
            &&& delivery_usage(p.delivery).bytes == capped(bytes)
            &&& p.logical_record is None ==> pending_usage(p) == delivery_usage(p.delivery)
            &&& p.logical_record matches Some(record) ==> pending_usage(p).items == capped(cells.len() + 1) && pending_usage(p).bytes == capped(
                bytes + record@.len(),
            )
        }),
{
    lemma_cells(p.delivery.cells@, p.delivery.cells@.len());
}

/// What a session will keep: what it keeps now, or what the state that replaces it
/// does, which must have been authenticated where it has credit.
pub proof fn sessions_hold_what_they_repair(peer: Seq<u8>, session: PeerSession, key: &Vec<u8>, snapshot: &Snapshot)
    ensures
        session_usage(peer, session, None) == Ok::<PayloadUsage, Error>(session.kept()),
        key@ != peer ==> session_usage(peer, session, Some((key, snapshot))) == Ok::<PayloadUsage, Error>(session.kept()),
        key@ == peer && snapshot.tag is None ==> session_usage(peer, session, Some((key, snapshot))) == Ok::<PayloadUsage, Error>(
            PayloadUsage { items: 0, bytes: 0 },
        ),
        key@ == peer && snapshot.tag is Some ==> session_usage(peer, session, Some((key, snapshot))) == (match snapshot.usage {
            Some(usage) => Ok::<PayloadUsage, Error>(usage),
            None => Err::<PayloadUsage, Error>(Error::UnauthenticatedSession),
        }),
{
}

proof fn lemma_sessions(s: Seq<(Vec<u8>, PeerSession)>, n: nat)
    requires
        n <= s.len(),
    ensures
        sessions_usage(s, n, None) matches Ok(usage) && usage.items == capped(sum(Seq::new(n, |i: int| s[i].1.kept().items as nat)))
            && usage.bytes == capped(sum(Seq::new(n, |i: int| s[i].1.kept().bytes as nat))),
    decreases n,
{
    let a = Seq::new(n, |i: int| s[i].1.kept().items as nat);
    let b = Seq::new(n, |i: int| s[i].1.kept().bytes as nat);
    if n > 0 {
        lemma_sessions(s, (n - 1) as nat);
        assert(a.drop_last() =~= Seq::new((n - 1) as nat, |i: int| s[i].1.kept().items as nat));
        assert(b.drop_last() =~= Seq::new((n - 1) as nat, |i: int| s[i].1.kept().bytes as nat));
    }
}

proof fn lemma_pending(s: Seq<([u8; 16], PendingDirect)>, n: nat, before: PayloadUsage, x: nat, y: nat)
    requires
        n <= s.len(),
        before.items == capped(x),
        before.bytes == capped(y),
    ensures
        all_pending_usage(s, n, before).items == capped(x + sum(Seq::new(n, |i: int| pending_usage(s[i].1).items as nat))),
        all_pending_usage(s, n, before).bytes == capped(y + sum(Seq::new(n, |i: int| pending_usage(s[i].1).bytes as nat))),
    decreases n,
{
    let a = Seq::new(n, |i: int| pending_usage(s[i].1).items as nat);
    let b = Seq::new(n, |i: int| pending_usage(s[i].1).bytes as nat);
    if n > 0 {
        lemma_pending(s, (n - 1) as nat, before, x, y);
        assert(a.drop_last() =~= Seq::new((n - 1) as nat, |i: int| pending_usage(s[i].1).items as nat));
        assert(b.drop_last() =~= Seq::new((n - 1) as nat, |i: int| pending_usage(s[i].1).bytes as nat));
    }
}

proof fn lemma_acks(s: Seq<DirectDelivery>, n: nat, before: PayloadUsage, x: nat, y: nat)
    requires
        n <= s.len(),
        before.items == capped(x),
        before.bytes == capped(y),
    ensures
        acks_usage(s, n, before).items == capped(x + sum(Seq::new(n, |i: int| delivery_usage(s[i]).items as nat))),
        acks_usage(s, n, before).bytes == capped(y + sum(Seq::new(n, |i: int| delivery_usage(s[i]).bytes as nat))),
    decreases n,
{
    let a = Seq::new(n, |i: int| delivery_usage(s[i]).items as nat);
    let b = Seq::new(n, |i: int| delivery_usage(s[i]).bytes as nat);
    if n > 0 {
        lemma_acks(s, (n - 1) as nat, before, x, y);
        assert(a.drop_last() =~= Seq::new((n - 1) as nat, |i: int| delivery_usage(s[i]).items as nat));
        assert(b.drop_last() =~= Seq::new((n - 1) as nat, |i: int| delivery_usage(s[i]).bytes as nat));
    }
}

proof fn lemma_processed(s: Seq<(ProcessedKey, ProcessedDirect)>, n: nat, before: PayloadUsage, x: nat, y: nat)
    requires
        n <= s.len(),
        before.items == capped(x),
        before.bytes == capped(y),
    ensures
        processed_usage(s, n, before).items == capped(x + sum(Seq::new(n, |i: int| delivery_usage(s[i].1.delivery).items as nat))),
        processed_usage(s, n, before).bytes == capped(y + sum(Seq::new(n, |i: int| delivery_usage(s[i].1.delivery).bytes as nat))),
    decreases n,
{
    let a = Seq::new(n, |i: int| delivery_usage(s[i].1.delivery).items as nat);
    let b = Seq::new(n, |i: int| delivery_usage(s[i].1.delivery).bytes as nat);
    if n > 0 {
        lemma_processed(s, (n - 1) as nat, before, x, y);
        assert(a.drop_last() =~= Seq::new((n - 1) as nat, |i: int| delivery_usage(s[i].1.delivery).items as nat));
        assert(b.drop_last() =~= Seq::new((n - 1) as nat, |i: int| delivery_usage(s[i].1.delivery).bytes as nat));
    }
}

/// What a node holds is the sum of what its sessions, its waiting messages, its
/// acknowledgements and its taken frames hold, nothing counted twice and nothing left
/// out.
pub proof fn holdings_add_up(st: NodeState)
    ensures
        ({
            let s = st.sessions.entries@;
            let p = st.pending_1to1.entries@;
            let a = st.direct_ack_outbox@;
            let d = st.processed_direct.entries@;
            st.usage(None) matches Ok(usage) && usage.items == capped(
                sum(Seq::new(s.len(), |i: int| s[i].1.kept().items as nat)) + sum(
                    Seq::new(p.len(), |i: int| pending_usage(p[i].1).items as nat),
                ) + sum(Seq::new(a.len(), |i: int| delivery_usage(a[i]).items as nat)) + sum(
                    Seq::new(d.len(), |i: int| delivery_usage(d[i].1.delivery).items as nat),
                ),
            ) && usage.bytes == capped(
                sum(Seq::new(s.len(), |i: int| s[i].1.kept().bytes as nat)) + sum(
                    Seq::new(p.len(), |i: int| pending_usage(p[i].1).bytes as nat),
                ) + sum(Seq::new(a.len(), |i: int| delivery_usage(a[i]).bytes as nat)) + sum(
                    Seq::new(d.len(), |i: int| delivery_usage(d[i].1.delivery).bytes as nat),
                ),
            )
        }),
{
    let s = st.sessions.entries@;
    let p = st.pending_1to1.entries@;
    let a = st.direct_ack_outbox@;
    let d = st.processed_direct.entries@;
    let x1 = sum(Seq::new(s.len(), |i: int| s[i].1.kept().items as nat));
    let y1 = sum(Seq::new(s.len(), |i: int| s[i].1.kept().bytes as nat));
    let x2 = x1 + sum(Seq::new(p.len(), |i: int| pending_usage(p[i].1).items as nat));
    let y2 = y1 + sum(Seq::new(p.len(), |i: int| pending_usage(p[i].1).bytes as nat));
    let x3 = x2 + sum(Seq::new(a.len(), |i: int| delivery_usage(a[i]).items as nat));
    let y3 = y2 + sum(Seq::new(a.len(), |i: int| delivery_usage(a[i]).bytes as nat));
    lemma_sessions(s, s.len());
    let u1 = sessions_usage(s, s.len(), None)->Ok_0;
    lemma_pending(p, p.len(), u1, x1, y1);
    let u2 = all_pending_usage(p, p.len(), u1);
    lemma_acks(a, a.len(), u2, x2, y2);
    let u3 = acks_usage(a, a.len(), u2);
    lemma_processed(d, d.len(), u3, x3, y3);
}

} // verus!
