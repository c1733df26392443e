//! Direct-session transactions. A session is of one of two kinds, with credit or
//! without, and a transaction prepared for one kind is never taken by the other.
//! The cryptography of both kinds is the host's.

use vstd::prelude::*;
use crate::archive_check::{has_credited_prefix, is_credited};
use crate::bytes::copy_bytes;
use crate::codec::Codec;
use crate::error::Error;
use crate::node_state::{PayloadUsage, PeerSession, Snapshot};

verus! {

/// What a direct record is, as the host decodes it.
#[derive(Clone, Copy, Debug, PartialEq, Eq, Structural)]
pub enum DirectKind {
    /// Application data; `horizon` is the last moment at which receipts of its
    /// time are kept.
    Data { horizon: u64 },
    /// Media that must not be repaired from disk.
    VolatileApplication,
    /// Anything else, and what does not decode.
    Other,
}

/// What a credited record is for.
#[derive(Clone, Copy, Debug, PartialEq, Eq, Structural)]
pub enum Purpose {
    Interactive,
    Control,
}

pub open spec fn purpose_of(kind: DirectKind) -> Purpose {
    match kind {
        DirectKind::Data { .. } => Purpose::Interactive,
        _ => Purpose::Control,
    }
}

/// Data is interactive, all else is control.
pub fn purpose(kind: DirectKind) -> (r: Purpose)
    ensures
        r == purpose_of(kind),
{
    match kind {
        DirectKind::Data { .. } => Purpose::Interactive,
        _ => Purpose::Control,
    }
}

impl Snapshot {
    /// A sealed session from its bytes, where the host finds them in good form.
    /// One with credit is told by how it begins, and has a tag.
    pub fn from_bytes(bytes: Vec<u8>, codec: &Codec) -> (r: Result<Self, Error>)
        ensures
            match r {
                Ok(s) => codec.sealed_sessions.has(bytes@) && s.bytes@ == bytes@ && s.usage is None && s.tag == (if is_credited(bytes@) {
                    codec.sealed_sessions.at(bytes@)
                } else {
                    None
                }),
                Err(e) => e == Error::SessionRefused && !codec.sealed_sessions.has(bytes@),
            },
    {
        match codec.sealed_sessions.get(&bytes) {
            None => Err(Error::SessionRefused),
            Some(tag) => {
                let tag = if has_credited_prefix(bytes.as_slice()) {
                    *tag
                } else {
                    None
                };
                Ok(Snapshot { bytes, tag, usage: None })
            },
        }
    }

    pub fn as_bytes(&self) -> (r: &Vec<u8>)
        ensures
            *r == self.bytes,
    {
        &self.bytes
    }

    pub fn tag(&self) -> (r: Option<[u8; 16]>)
        ensures
            r == self.tag,
    {
        self.tag
    }

    /// A credited session that the host sealed, with what it keeps for repair.
    pub fn seal(tag: [u8; 16], sealed: Vec<u8>, retained: PayloadUsage) -> (r: Self)
        ensures
            r.bytes == sealed,
            r.tag == Some(tag),
            r.usage == Some(retained),
    {
        Snapshot { bytes: sealed, tag: Some(tag), usage: Some(retained) }
    }
}

/// What a credited record is sent as.
#[derive(Clone, Copy, Debug, PartialEq, Eq, Structural)]
pub struct SendPlan {
    pub purpose: Purpose,
    pub deadline: u64,
}

/// How a record goes out: over a session without credit as it is, over one with
/// credit with a purpose and a deadline. Media that cannot be repaired does not
/// go over a session that is kept on disk.
pub open spec fn send_plan(credited: bool, kind: DirectKind, deadline: u64) -> Result<Option<SendPlan>, Error> {
    if !credited {
        Ok(None)
    } else {
        match kind {
            DirectKind::VolatileApplication => Err(Error::VolatileRecord),
            DirectKind::Data { horizon } => Ok(
                Some(SendPlan { purpose: Purpose::Interactive, deadline: if deadline < horizon { deadline } else { horizon } }),
            ),
            DirectKind::Other => Ok(Some(SendPlan { purpose: Purpose::Control, deadline })),
        }
    }
}

/// The deadline of a record that names none: data has ten minutes.
pub open spec fn default_deadline(kind: DirectKind, now_unix: u64) -> u64 {
    match kind {
        DirectKind::Data { .. } => if now_unix + 600 <= u64::MAX {
            (now_unix + 600) as u64
        } else {
            u64::MAX
        },
        _ => 0,
    }
}

/// A received frame, prepared. Whether it came too late is settled once.
#[derive(Debug)]
pub struct PreparedReceive {
    pub expired: bool,
    /// What the peer is credited with; a session without credit has none.
    pub credit: Option<Vec<u8>>,
    /// The record in the frame; a repetition has none.
    pub record: Option<Vec<u8>>,
    pub sealed: Snapshot,
}

impl PreparedReceive {
    pub open spec fn credited(self) -> bool {
        self.credit is Some
    }

    /// What the application gets to see.
    pub open spec fn text(self) -> Seq<u8> {
        match self.record {
            Some(record) if !(self.credited() && self.expired) => record@,
            _ => Seq::empty(),
        }
    }

    /// The record, or nothing where it came too late or repeats another.
    pub fn plaintext(&self) -> (r: Vec<u8>)
        ensures
            r@ == self.text(),
            self.record matches Some(record) ==> (self.credit is None || !self.expired ==> r@ == record@),
            self.record is None || (self.credit is Some && self.expired) ==> r@.len() == 0,
    {
        match &self.record {
            Some(record) => {
                if self.credit.is_some() && self.expired {
                    let none: Vec<u8> = Vec::new();
                    assert(none@ =~= Seq::<u8>::empty());
                    none
                } else {
                    copy_bytes(record.as_slice())
                }
            },
            None => {
                let none: Vec<u8> = Vec::new();
                assert(none@ =~= Seq::<u8>::empty());
                none
            },
        }
    }

    pub fn sealed_state(&self) -> (r: &Snapshot)
        ensures
            *r == self.sealed,
    {
        &self.sealed
    }

    pub fn credit(&self) -> (r: Option<&Vec<u8>>)
        ensures
            match (r, self.credit) {
                (Some(a), Some(b)) => *a == b,
                (None, None) => true,
                _ => false,
            },
    {
        match &self.credit {
            Some(credit) => Some(credit),
            None => None,
        }
    }

    /// Whether a credited frame repeats another.
    pub fn duplicate(&self) -> (r: bool)
        ensures
            r == (self.credited() && self.record is None),
    {
        self.credit.is_some() && self.record.is_none()
    }
}

impl PeerSession {
    pub open spec fn credited(self) -> bool {
        self.tag is Some
    }

    pub fn is_credited(&self) -> (r: bool)
        ensures
            r == self.credited(),
    {
        self.tag.is_some()
    }

    pub fn tag(&self) -> (r: Option<[u8; 16]>)
        ensures
            r == self.tag,
    {
        self.tag
    }

    /// What it keeps for repair. One without credit keeps nothing.
    pub open spec fn kept(self) -> PayloadUsage {
        if self.credited() {
            self.usage
        } else {
            crate::retained::none_held()
        }
    }

    pub fn retained_payload(&self) -> (r: PayloadUsage)
        ensures
            r == self.kept(),
    {
        if self.tag.is_some() {
            self.usage
        } else {
            PayloadUsage { items: 0, bytes: 0 }
        }
    }

    /// How a record goes out with the deadline that records of its kind have.
    pub fn prepare_send(&self, kind: DirectKind, now_unix: u64) -> (r: Result<Option<SendPlan>, Error>)
        ensures
            r == send_plan(self.credited(), kind, default_deadline(kind, now_unix)),
    {
        let deadline: u64 = match kind {
            DirectKind::Data { .. } => now_unix.saturating_add(600),
            _ => 0,
        };
        self.prepare_send_until(kind, deadline)
    }

    /// How a record goes out by a deadline. Data goes no later than receipts of
    /// its time are kept.
    pub fn prepare_send_until(&self, kind: DirectKind, deadline: u64) -> (r: Result<Option<SendPlan>, Error>)
        ensures
            r == send_plan(self.credited(), kind, deadline),
    {
        if !self.is_credited() {
            return Ok(None);
        }
        match kind {
            DirectKind::VolatileApplication => Err(Error::VolatileRecord),
            DirectKind::Data { horizon } => {
                let deadline: u64 = if deadline < horizon {
                    deadline
                } else {
                    horizon
                };
                Ok(Some(SendPlan { purpose: Purpose::Interactive, deadline }))
            },
            DirectKind::Other => Ok(Some(SendPlan { purpose: Purpose::Control, deadline })),
        }
    }

    /// Whether a record can go out now: always without credit, else where the
    /// window has a counter for its purpose and need not be repaired first.
    pub fn can_send(&self, has_counter: bool, repair_expired: bool) -> (r: bool)
        ensures
            r == (!self.credited() || (has_counter && !repair_expired)),
    {
        !self.is_credited() || (has_counter && !repair_expired)
    }

    /// A prepared frame: what the host made of it, with its lateness settled.
    pub fn prepare_receive(&self, record: Option<Vec<u8>>, credit: Option<Vec<u8>>, expired: bool, sealed: Snapshot) -> (r: Result<PreparedReceive, Error>)
        ensures
            match r {
                Ok(p) => credit is Some == self.credited() && p.record == record && p.credit == credit && p.sealed == sealed && p.expired
                    == (self.credited() && record is Some && expired),
                Err(e) => e == Error::StaleTransaction && credit is Some != self.credited(),
            },
    {
        if credit.is_some() != self.is_credited() {
            return Err(Error::StaleTransaction);
        }
        let late = credit.is_some() && record.is_some() && expired;
        Ok(PreparedReceive { expired: late, credit, record, sealed })
    }

    /// A repeated first move, which only a session with credit answers. It is
    /// never late.
    pub fn prepare_first_move_retry(&self, record: Option<Vec<u8>>, credit: Vec<u8>, sealed: Snapshot) -> (r: Result<PreparedReceive, Error>)
        ensures
            match r {
                Ok(p) => self.credited() && p.record == record && p.credit == Some(credit) && p.sealed == sealed && !p.expired,
                Err(e) => e == Error::NotCredited && !self.credited(),
            },
    {
        if !self.is_credited() {
            return Err(Error::NotCredited);
        }
        Ok(PreparedReceive { expired: false, credit: Some(credit), record, sealed })
    }

    /// Takes up a sent frame: the state that was sealed for it. One prepared for
    /// the other kind is stale.
    pub fn commit_send(&mut self, sealed: Snapshot) -> (r: Result<(), Error>)
        ensures
            committed(*old(self), sealed, *final(self), r),
    {
        self.commit(sealed)
    }

    /// Takes up a received frame.
    pub fn commit_receive(&mut self, prepared: PreparedReceive) -> (r: Result<(), Error>)
        ensures
            committed(*old(self), prepared.sealed, *final(self), r),
    {
        self.commit(prepared.sealed)
    }

    /// The session as it will be once a received frame is taken up, without
    /// taking it up.
    pub fn stage_received(&self, prepared: &PreparedReceive) -> (r: Result<PeerSession, Error>)
        ensures
            match r {
                Ok(next) => fits(*self, prepared.sealed) && next.sealed@ == prepared.sealed.bytes@ && next.tag == self.tag && next.usage
                    == usage_after(prepared.sealed),
                Err(e) => e == Error::StaleTransaction && !fits(*self, prepared.sealed),
            },
    {
        if !same_tag(&prepared.sealed.tag, &self.tag) {
            return Err(Error::StaleTransaction);
        }
        Ok(
            PeerSession {
                sealed: copy_bytes(prepared.sealed.bytes.as_slice()),
                tag: self.tag,
                usage: settled_usage(&prepared.sealed),
            },
        )
    }

    fn commit(&mut self, sealed: Snapshot) -> (r: Result<(), Error>)
        ensures
            committed(*old(self), sealed, *final(self), r),
    {
        if !same_tag(&sealed.tag, &self.tag) {
            return Err(Error::StaleTransaction);
        }
        let usage = settled_usage(&sealed);
        self.sealed = sealed.bytes;
        self.usage = usage;
        Ok(())
    }
}

/// Whether a sealed state is one of a session: of the same kind, and of the same
/// tag where there is one.
pub open spec fn fits(session: PeerSession, sealed: Snapshot) -> bool {
    sealed.tag == session.tag
}

pub open spec fn usage_after(sealed: Snapshot) -> PayloadUsage {
    match sealed.usage {
        Some(usage) => usage,
        None => crate::retained::none_held(),
    }
}

fn settled_usage(sealed: &Snapshot) -> (r: PayloadUsage)
    ensures
        r == usage_after(*sealed),
{
    match sealed.usage {
        Some(usage) => usage,
        None => PayloadUsage { items: 0, bytes: 0 },
    }
}

fn same_tag(a: &Option<[u8; 16]>, b: &Option<[u8; 16]>) -> (r: bool)
    ensures
        r == (*a == *b),
{
    match (a, b) {
        (Some(a), Some(b)) => crate::bytes::same_id16(a, b),
        (None, None) => true,
        _ => false,
    }
}

/// How a transaction comes out: taken up where it fits, and else nothing changes.
pub open spec fn committed(before: PeerSession, sealed: Snapshot, after: PeerSession, r: Result<(), Error>) -> bool {
    if fits(before, sealed) {
        r is Ok && after.sealed == sealed.bytes && after.tag == before.tag && after.usage == usage_after(sealed)
    } else {
        r == Err::<(), Error>(Error::StaleTransaction) && after == before
    }
}

/// A transaction that is taken up leaves the session of the kind that it was.
pub proof fn sessions_keep_their_kind(before: PeerSession, sealed: Snapshot, after: PeerSession, r: Result<(), Error>)
    requires
        committed(before, sealed, after, r),
    ensures
        after.tag == before.tag,
        after.credited() == before.credited(),
{
}

/// What the application gets to see: every record over a session without credit,
/// and over one with credit every record that came in time. A record that came too
/// late, and a frame without a record, show nothing.
pub proof fn records_in_time_are_seen(p: PreparedReceive)
    ensures
        p.record matches Some(record) ==> (p.credit is None ==> p.text() == record@),
        p.record matches Some(record) ==> (p.credit is Some && !p.expired ==> p.text() == record@),
        p.credit is Some && p.expired ==> p.text().len() == 0,
        p.record is None ==> p.text().len() == 0,
{
}

/// Over a session without credit a record goes as it is. Over one with credit data
/// goes no later than it was to, nor than receipts of its time are kept, and as
/// late as both allow; volatile media does not go; anything else goes as control,
/// by the deadline it was given.
pub proof fn records_go_by_their_deadline(credited: bool, kind: DirectKind, deadline: u64)
    ensures
        !credited ==> send_plan(credited, kind, deadline) == Ok::<Option<SendPlan>, Error>(None),
        credited && kind is VolatileApplication ==> send_plan(credited, kind, deadline) == Err::<Option<SendPlan>, Error>(
            Error::VolatileRecord,
        ),
        credited && kind is Data ==> match send_plan(credited, kind, deadline) {
            Ok(Some(plan)) => {
                &&& plan.purpose is Interactive
                &&& plan.deadline <= deadline
                &&& plan.deadline <= kind->horizon
                &&& plan.deadline == deadline || plan.deadline == kind->horizon
            },
            _ => false,
        },
        credited && kind is Other ==> match send_plan(credited, kind, deadline) {
            Ok(Some(plan)) => plan.purpose is Control && plan.deadline == deadline,
            _ => false,
        },
        kind is Data <==> purpose_of(kind) is Interactive,
        !(kind is Data) <==> purpose_of(kind) is Control,
{
}

/// Data that names no deadline has ten minutes, or until the end of time where that
/// is nearer; anything else has none to name.
pub proof fn data_has_ten_minutes(kind: DirectKind, now_unix: u64)
    ensures
        kind is Data && now_unix <= u64::MAX - 600 ==> default_deadline(kind, now_unix) - now_unix == 600,
        kind is Data && now_unix > u64::MAX - 600 ==> default_deadline(kind, now_unix) == u64::MAX,
        !(kind is Data) ==> default_deadline(kind, now_unix) == 0,
{
}

/// A transaction is taken up exactly where the state sealed for it has the tag of
/// the session, or neither has one. Then the session is the sealed state, with what
/// that keeps; else it stays as it was.
pub proof fn transactions_are_all_or_nothing(before: PeerSession, sealed: Snapshot, after: PeerSession, r: Result<(), Error>)
    requires
        committed(before, sealed, after, r),
    ensures
        r is Ok <==> before.tag == sealed.tag,
        r is Ok ==> after.sealed@ == sealed.bytes@ && after.tag == before.tag,
        r is Ok && sealed.usage is Some ==> Some(after.usage) == sealed.usage,
        r is Ok && sealed.usage is None ==> after.usage.items == 0 && after.usage.bytes == 0,
        r is Err ==> r == Err::<(), Error>(Error::StaleTransaction) && after == before,
{
}

/// A session with a tag keeps what it holds for repair, one without a tag nothing.
pub proof fn only_credited_sessions_retain(s: PeerSession)
    ensures
        s.tag is Some ==> s.kept() == s.usage,
        s.tag is None ==> s.kept().items == 0 && s.kept().bytes == 0,
        s.credited() <==> s.tag is Some,
{
}

/// A payload of the credited protocol begins with one of three marks: two letters, a
/// letter for its kind, and the digit two.
pub proof fn credited_payloads_are_marked(payload: Seq<u8>)
    ensures
        is_second(payload) <==> payload.len() >= 4 && {
            ||| payload.take(4) == seq![0x47u8, 0x43u8, 0x48u8, 0x32u8]
            ||| payload.take(4) == seq![0x47u8, 0x43u8, 0x4du8, 0x32u8]
            ||| payload.take(4) == seq![0x47u8, 0x43u8, 0x41u8, 0x32u8]
        },
{
    if payload.len() >= 4 {
        let t = payload.take(4);
        assert(t[0] == payload[0] && t[1] == payload[1] && t[2] == payload[2] && t[3] == payload[3]);
        if is_second(payload) {
            if payload[2] == 0x48 {
                assert(t =~= seq![0x47u8, 0x43u8, 0x48u8, 0x32u8]);
            } else if payload[2] == 0x4d {
                assert(t =~= seq![0x47u8, 0x43u8, 0x4du8, 0x32u8]);
            } else {
                assert(t =~= seq![0x47u8, 0x43u8, 0x41u8, 0x32u8]);
            }
        }
    }
}

/// Whether a payload belongs to the credited protocol.
pub open spec fn is_second(payload: Seq<u8>) -> bool {
    payload.len() >= 4 && payload[0] == 0x47 && payload[1] == 0x43 && payload[3] == 0x32 && (payload[2] == 0x48 || payload[2] == 0x4d
        || payload[2] == 0x41)
}

/// The flags of a cell: payloads of the credited protocol have none.
pub fn cell_flags(payload: &[u8], legacy_flags: u16) -> (r: u16)
    ensures
        r == (if is_second(payload@) {
            0
        } else {
            legacy_flags
        }),
{
    let second = payload.len() >= 4 && payload[0] == 0x47 && payload[1] == 0x43 && payload[3] == 0x32 && (payload[2] == 0x48
        || payload[2] == 0x4d || payload[2] == 0x41);
    if second {
        0
    } else {
        legacy_flags
    }
}

/// How a session is begun.
#[derive(Clone, Copy, Debug, PartialEq, Eq, Structural)]
pub enum Handshake {
    Credited,
    Authenticated,
}

/// How a session with a peer begins, or why it does not.
pub open spec fn handshake(gc2_sessions: bool, bundle_fresh: Option<bool>) -> Result<Handshake, Error> {
    if gc2_sessions {
        Ok(Handshake::Credited)
    } else {
        match bundle_fresh {
            None => Err(Error::InvalidPeerBundle),
            Some(true) => Ok(Handshake::Authenticated),
            Some(false) => Err(Error::StalePeerBundle),
        }
    }
}

/// Decides how to begin a session with a peer. Without credit the peer's bundle
/// must decode and be fresh; `bundle_fresh` is none where it does not decode.
pub fn plan_initiate(gc2_sessions: bool, bundle_fresh: Option<bool>) -> (r: Result<Handshake, Error>)
    ensures
        r == handshake(gc2_sessions, bundle_fresh),
{
    if gc2_sessions {
        return Ok(Handshake::Credited);
    }
    match bundle_fresh {
        None => Err(Error::InvalidPeerBundle),
        Some(fresh) => {
            if fresh {
                Ok(Handshake::Authenticated)
            } else {
                Err(Error::StalePeerBundle)
            }
        },
    }
}

/// Where sessions are credited every session begins so, whatever the bundle. Else a
/// session begins with a bundle that decodes and is fresh, and with no other; what is
/// said tells a bundle that does not decode from one that is stale.
pub proof fn sessions_begin_with_a_fresh_bundle(bundle_fresh: Option<bool>)
    ensures
        handshake(true, bundle_fresh) == Ok::<Handshake, Error>(Handshake::Credited),
        handshake(false, bundle_fresh) is Ok <==> bundle_fresh == Some(true),
        handshake(false, bundle_fresh) is Ok ==> handshake(false, bundle_fresh) == Ok::<Handshake, Error>(Handshake::Authenticated),
        bundle_fresh is None ==> handshake(false, bundle_fresh) == Err::<Handshake, Error>(Error::InvalidPeerBundle),
        bundle_fresh == Some(false) ==> handshake(false, bundle_fresh) == Err::<Handshake, Error>(Error::StalePeerBundle),
{
}

} // verus!
