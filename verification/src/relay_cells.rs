//! How a relay answers cells. The lease store, the token registry and the
//! scheduler are the host's; what their answers mean is decided here.

use vstd::prelude::*;
use crate::bytes::{has_id, same_id};
use crate::codec::Protocol;
use crate::model::{contacts, contacts_of, views, AliasContact, Capabilities, Cell, CellView, LeaseLimits, NodeInfo, OwnedAlias, RelayProvision, RelayTarget};
use crate::relay_service::{notes_use, slid, AuthorityView, Frwd, ProvisionAuthorities, PROVISION_GRANT_MARGIN_SECS};
use crate::table::{distinct, lemma_place_is, place, Table};

verus! {

/// Why a cell is turned away.
#[derive(Clone, Copy, Debug, PartialEq, Eq, Structural)]
pub enum QueueReject {
    Unauthorized,
    Conflict,
    Overloaded,
}

/// What a lease store refuses.
#[derive(Clone, Copy, Debug, PartialEq, Eq, Structural)]
pub enum StoreError {
    Replay,
    GrantConsumed,
    QueueFull,
    Capacity,
    ReplayCapacity,
    /// Any other refusal.
    Refused,
}

/// What a lease store makes of a push.
#[derive(Clone, Copy, Debug, PartialEq, Eq, Structural)]
pub enum PushOutcome {
    Enqueued,
    Duplicate,
    Cover,
}

/// What a scheduler refuses.
#[derive(Clone, Copy, Debug, PartialEq, Eq, Structural)]
pub enum EnqueueError {
    InvalidCell,
    Full,
    Pending,
    Shutdown,
}

pub open spec fn reject_of(e: StoreError) -> QueueReject {
    match e {
        StoreError::Replay | StoreError::GrantConsumed => QueueReject::Conflict,
        StoreError::QueueFull | StoreError::Capacity | StoreError::ReplayCapacity => QueueReject::Overloaded,
        StoreError::Refused => QueueReject::Unauthorized,
    }
}

/// The answer to a refusal of the lease store.
pub fn reject_store(e: StoreError) -> (r: QueueReject)
    ensures
        r == reject_of(e),
{
    match e {
        StoreError::Replay | StoreError::GrantConsumed => QueueReject::Conflict,
        StoreError::QueueFull | StoreError::Capacity | StoreError::ReplayCapacity => QueueReject::Overloaded,
        StoreError::Refused => QueueReject::Unauthorized,
    }
}

/// An administrative operation on a lease.
#[derive(Clone, Copy, Debug, PartialEq, Eq, Structural)]
pub enum AdminOperation {
    RequestGrant,
    Create,
    Renew,
    Rotate,
    Revoke,
}

/// What a posted cell asks for.
#[derive(Clone, Copy, Debug, PartialEq, Eq, Structural)]
pub enum CellRequest {
    Admin(AdminOperation),
    Forward,
}

/// The operation that an administration payload asks for: its second byte.
/// Challenges and admissions are not for this door.
pub open spec fn operation_of(payload: Seq<u8>, p: Protocol) -> Result<AdminOperation, QueueReject> {
    if payload.len() < 2 {
        Err(QueueReject::Unauthorized)
    } else {
        let op = payload[1];
        if op == p.op_relay_challenge || op == p.op_relay_admission {
            Err(QueueReject::Unauthorized)
        } else if op == p.op_grant_request {
            Ok(AdminOperation::RequestGrant)
        } else if op == p.op_create {
            Ok(AdminOperation::Create)
        } else if op == p.op_renew {
            Ok(AdminOperation::Renew)
        } else if op == p.op_rotate {
            Ok(AdminOperation::Rotate)
        } else if op == p.op_revoke {
            Ok(AdminOperation::Revoke)
        } else {
            Err(QueueReject::Unauthorized)
        }
    }
}

/// Whether the authority at a path is a temporary grant.
pub open spec fn restricted(authorities: ProvisionAuthorities, token: Seq<char>) -> bool {
    authorities.authority(token) matches Some(a) && a.destinations is Some
}

/// What a cell posted at a token asks for. Temporary grants do not forward
/// first-generation cells.
pub open spec fn request_of(cell: CellView, token: Seq<char>, authorities: ProvisionAuthorities, p: Protocol) -> Result<CellRequest, QueueReject> {
    if cell.raw_type == p.relay_sub {
        match operation_of(cell.payload, p) {
            Ok(op) => Ok(CellRequest::Admin(op)),
            Err(e) => Err(e),
        }
    } else if cell.raw_type == p.frwd && !restricted(authorities, token) {
        Ok(CellRequest::Forward)
    } else {
        Err(QueueReject::Unauthorized)
    }
}

pub fn admin_operation(payload: &Vec<u8>, p: &Protocol) -> (r: Result<AdminOperation, QueueReject>)
    ensures
        r == operation_of(payload@, *p),
{
    if payload.len() < 2 {
        return Err(QueueReject::Unauthorized);
    }
    let op: u8 = payload[1];
    if op == p.op_relay_challenge || op == p.op_relay_admission {
        return Err(QueueReject::Unauthorized);
    }
    if op == p.op_grant_request {
        Ok(AdminOperation::RequestGrant)
    } else if op == p.op_create {
        Ok(AdminOperation::Create)
    } else if op == p.op_renew {
        Ok(AdminOperation::Renew)
    } else if op == p.op_rotate {
        Ok(AdminOperation::Rotate)
    } else if op == p.op_revoke {
        Ok(AdminOperation::Revoke)
    } else {
        Err(QueueReject::Unauthorized)
    }
}

pub fn cell_request(cell: &Cell, token: &str, authorities: &ProvisionAuthorities, p: &Protocol) -> (r: Result<CellRequest, QueueReject>)
    ensures
        r == request_of(cell@, token@, *authorities, *p),
{
    if cell.raw_type == p.relay_sub {
        return match admin_operation(&cell.payload, p) {
            Ok(op) => Ok(CellRequest::Admin(op)),
            Err(e) => Err(e),
        };
    }
    if cell.raw_type == p.frwd {
        let closed_door = match authorities.frwd.get(&token.to_owned()) {
            Some(entry) => entry.destinations.is_some(),
            None => false,
        };
        if closed_door {
            return Err(QueueReject::Unauthorized);
        }
        return Ok(CellRequest::Forward);
    }
    Err(QueueReject::Unauthorized)
}

/// What became of the queue's own token when a lease was created.
#[derive(Clone, Copy, Debug, PartialEq, Eq, Structural)]
pub enum QueueToken {
    /// It was registered as a queue before.
    Present,
    /// It has just been registered.
    Inserted,
    /// It could not be registered.
    Refused,
    /// It is registered as something else.
    OtherKind,
}

/// What the host does to its token registry after an operation.
#[derive(Clone, Copy, Debug, PartialEq, Eq, Structural)]
pub enum RegistryChange {
    Nothing,
    /// The queue's token and the administration path go.
    RemoveQueue,
}

/// Whether an operation that the store carried out is acknowledged.
pub open spec fn accepted(op: AdminOperation, queue_token: QueueToken) -> bool {
    op is Create ==> queue_token is Present || queue_token is Inserted
}

/// The tokens of created queues after an operation.
pub open spec fn tokens_after(
    tokens: Table<[u8; 32], String>,
    op: AdminOperation,
    queue: [u8; 32],
    token: Seq<char>,
    k: Seq<u8>,
) -> Option<Seq<char>> {
    if k == queue@ && op is Create {
        Some(token)
    } else if k == queue@ && op is Revoke {
        None
    } else {
        text_at(tokens, k)
    }
}

pub open spec fn text_at(tokens: Table<[u8; 32], String>, k: Seq<u8>) -> Option<Seq<char>> {
    match tokens.lookup(k) {
        Some(s) => Some(s@),
        None => None,
    }
}

/// Completes an administrative operation with what the lease store answered: on
/// success the lease's queue. A mint-time registration or a replayed activation
/// of a queue is no conflict; a token registered as another kind is.
pub fn complete_operation(
    authorities: &mut ProvisionAuthorities,
    tokens: &mut Table<[u8; 32], String>,
    op: AdminOperation,
    result: Result<[u8; 32], StoreError>,
    queue_token: QueueToken,
    token: &str,
    now: u64,
) -> (r: Result<RegistryChange, QueueReject>)
    requires
        old(authorities).wf(),
        old(tokens).wf(),
        op !is RequestGrant,
    ensures
        final(authorities).wf(),
        final(tokens).wf(),
        match result {
            Err(e) => r == Err::<RegistryChange, QueueReject>(reject_of(e)) && *final(authorities) == *old(authorities)
                && *final(tokens) == *old(tokens),
            Ok(queue) => if !accepted(op, queue_token) {
                r == Err::<RegistryChange, QueueReject>(QueueReject::Conflict) && *final(authorities) == *old(authorities)
                    && *final(tokens) == *old(tokens)
            } else {
                &&& r == Ok::<RegistryChange, QueueReject>(if op is Revoke {
                    RegistryChange::RemoveQueue
                } else {
                    RegistryChange::Nothing
                })
                &&& forall|k: Seq<u8>| #[trigger] text_at(*final(tokens), k) == tokens_after(*old(tokens), op, queue, token@, k)
                &&& notes_use(*old(authorities), *final(authorities), token@, now)
            },
        },
{
    let queue = match result {
        Ok(queue) => queue,
        Err(e) => {
            return Err(reject_store(e));
        },
    };
    let mut change = RegistryChange::Nothing;
    if matches!(op, AdminOperation::Create) {
        if !matches!(queue_token, QueueToken::Present | QueueToken::Inserted) {
            return Err(QueueReject::Conflict);
        }
        let ghost before = *tokens;
        let _ = tokens.insert(queue, token.to_owned());
        assert forall|k: Seq<u8>| #[trigger] text_at(*tokens, k) == tokens_after(before, op, queue, token@, k) by {
            if k != queue@ {
                assert(tokens.lookup(k) == before.lookup(k));
            }
        }
    } else if matches!(op, AdminOperation::Revoke) {
        let ghost before = *tokens;
        let _ = tokens.remove(&queue);
        change = RegistryChange::RemoveQueue;
        assert forall|k: Seq<u8>| #[trigger] text_at(*tokens, k) == tokens_after(before, op, queue, token@, k) by {
            if k != queue@ {
                assert(tokens.lookup(k) == before.lookup(k));
            }
        }
    }
    authorities.note_admin_use(token, now);
    Ok(change)
}

/// What an authenticated forwarding order comes to.
#[derive(Clone, Copy, Debug, PartialEq, Eq, Structural)]
pub enum FrwdAction {
    /// Cover: the same receipt as a real hop, and nothing is forwarded.
    Acknowledge,
    /// Hand the order to the scheduler.
    Enqueue,
}

/// Judges a forwarding order. `frwd` is what the cell authenticated to under the
/// path's hop key and the target policy, if it did.
pub open spec fn judged(
    authorities: ProvisionAuthorities,
    token: Seq<char>,
    hop_key: [u8; 32],
    frwd: Option<Frwd>,
    cover: bool,
    now: u64,
) -> Result<FrwdAction, QueueReject> {
    match frwd {
        None => Err(QueueReject::Unauthorized),
        Some(order) => if !authorities.permits(token, hop_key, order, now) {
            Err(QueueReject::Unauthorized)
        } else if cover {
            Ok(FrwdAction::Acknowledge)
        } else if authorities.transit_ready == Some(false) {
            Err(QueueReject::Overloaded)
        } else {
            Ok(FrwdAction::Enqueue)
        },
    }
}

/// One more, wrapping round.
pub open spec fn counted(n: u64) -> u64 {
    if n == u64::MAX {
        0
    } else {
        (n + 1) as u64
    }
}

impl ProvisionAuthorities {
    /// Begins with a posted order: the hop key to authenticate it with.
    pub fn begin_frwd(&self, token: &str, now: u64) -> (r: Result<[u8; 32], QueueReject>)
        ensures
            r == (match self.hop_key_at(token@, now) {
                Some(key) => Ok::<[u8; 32], QueueReject>(key),
                None => Err::<[u8; 32], QueueReject>(QueueReject::Unauthorized),
            }),
    {
        match self.lookup_frwd(token, now) {
            Some(key) => Ok(key),
            None => Err(QueueReject::Unauthorized),
        }
    }

    /// Judges an authenticated order. Cover slides its authority at once; real
    /// work is counted, and slides it, only when it has entered its lane.
    pub fn judge_frwd(&mut self, token: &str, hop_key: &[u8; 32], frwd: Option<Frwd>, cover: bool, now: u64) -> (r: Result<FrwdAction, QueueReject>)
        requires
            old(self).wf(),
        ensures
            final(self).wf(),
            r == judged(*old(self), token@, *hop_key, frwd, cover, now),
            match r {
                Err(_) => *final(self) == *old(self),
                Ok(FrwdAction::Acknowledge) => final(self).same_beside_frwd(*old(self)) && final(self).authority(token@) == Some(
                    slid(old(self).authority(token@)->0, now),
                ) && forall|k: Seq<char>| k != token@ ==> #[trigger] final(self).authority(k) == old(self).authority(k),
                Ok(FrwdAction::Enqueue) => *final(self) == *old(self),
            },
    {
        let order = match frwd {
            Some(order) => order,
            None => {
                return Err(QueueReject::Unauthorized);
            },
        };
        if !self.permits_frwd(token, hop_key, &order, now) {
            return Err(QueueReject::Unauthorized);
        }
        if cover {
            let _ = self.note_frwd_admitted(token, hop_key, now);
            return Ok(FrwdAction::Acknowledge);
        }
        if let Some(ready) = self.transit_ready {
            if !ready {
                return Err(QueueReject::Overloaded);
            }
        }
        Ok(FrwdAction::Enqueue)
    }

    /// Ends with the scheduler's answer: the work is counted and the authority
    /// slides where it has entered its lane.
    pub fn end_frwd(&mut self, token: &str, hop_key: &[u8; 32], result: Result<(), EnqueueError>, now: u64) -> (r: Result<(), QueueReject>)
        requires
            old(self).wf(),
        ensures
            final(self).wf(),
            final(self).same_beside_frwd(ProvisionAuthorities { admitted: final(self).admitted, ..*old(self) }),
            forall|k: Seq<char>| k != token@ ==> #[trigger] final(self).authority(k) == old(self).authority(k),
            match result {
                Err(EnqueueError::InvalidCell) => r == Err::<(), QueueReject>(QueueReject::Unauthorized) && *final(self) == *old(self),
                Err(_) => r == Err::<(), QueueReject>(QueueReject::Overloaded) && *final(self) == *old(self),
                Ok(_) => {
                    &&& r is Ok
                    &&& final(self).admitted == counted(old(self).admitted)
                    &&& if old(self).hop_key_at(token@, now) == Some(*hop_key) {
                        final(self).authority(token@) == Some(slid(old(self).authority(token@)->0, now))
                    } else {
                        final(self).frwd == old(self).frwd
                    }
                },
            },
    {
        match result {
            Err(EnqueueError::InvalidCell) => Err(QueueReject::Unauthorized),
            Err(_) => Err(QueueReject::Overloaded),
            Ok(()) => {
                self.admitted = if self.admitted == u64::MAX { 0 } else { self.admitted + 1 };
                let _ = self.note_frwd_admitted(token, hop_key, now);
                Ok(())
            },
        }
    }
}

/// Whether a push posted at a queue's path is for that queue. Both identifiers
/// are missing where the path or the cell could not be read.
pub fn push_is_for_path(path_queue: Option<[u8; 32]>, push_queue: Option<[u8; 32]>) -> (r: Result<(), QueueReject>)
    ensures
        r == (if path_queue is Some && path_queue == push_queue {
            Ok::<(), QueueReject>(())
        } else {
            Err::<(), QueueReject>(QueueReject::Unauthorized)
        }),
{
    match (path_queue, push_queue) {
        (Some(path), Some(push)) => {
            if same_id(&path, &push) {
                Ok(())
            } else {
                Err(QueueReject::Unauthorized)
            }
        },
        _ => Err(QueueReject::Unauthorized),
    }
}

/// The answer to a push: a cover deposit gets the same receipt as a real one.
pub fn push_answer(result: Result<PushOutcome, StoreError>) -> (r: Result<(), QueueReject>)
    ensures
        r == (match result {
            Ok(_) => Ok::<(), QueueReject>(()),
            Err(e) => Err::<(), QueueReject>(reject_of(e)),
        }),
{
    match result {
        Ok(_) => Ok(()),
        Err(e) => Err(reject_store(e)),
    }
}

/// What a subscriber's stream does in a slot.
#[derive(Clone, Copy, Debug, PartialEq, Eq, Structural)]
pub enum SlotAction {
    Stop,
    Wait,
    SendHead,
    SendCover,
}

/// What becomes of a slot of a stream.
pub open spec fn slot_action(subscription_valid: bool, drawn: bool, has_head: bool, emit_cover: bool) -> SlotAction {
    if !subscription_valid {
        SlotAction::Stop
    } else if !drawn {
        SlotAction::Wait
    } else if has_head {
        SlotAction::SendHead
    } else if emit_cover {
        SlotAction::SendCover
    } else {
        SlotAction::Wait
    }
}

/// A slot ends the stream where the subscription has ended, sends nothing where
/// it was not drawn, and else sends the head of the queue or, where the queue is
/// empty and cover is wanted, cover.
pub fn stream_slot(subscription_valid: bool, drawn: bool, has_head: bool, emit_cover: bool) -> (r: SlotAction)
    ensures
        r == slot_action(subscription_valid, drawn, has_head, emit_cover),
{
    if !subscription_valid {
        SlotAction::Stop
    } else if !drawn {
        SlotAction::Wait
    } else if has_head {
        SlotAction::SendHead
    } else if emit_cover {
        SlotAction::SendCover
    } else {
        SlotAction::Wait
    }
}

/// How long a leased queue of a new provision lasts.
pub const PROVISION_LEASE_SECS: u64 = 86_400;

/// An alias of a new provision, of the values drawn for it and of what the lease
/// store answered: the create path and the lease operation's wire.
pub fn provisioned_alias(
    target: &RelayTarget,
    queue_id: [u8; 32],
    epoch: u64,
    capabilities: Capabilities,
    limits: LeaseLimits,
    create_path: String,
    lease_create: Cell,
    now: u64,
) -> (r: OwnedAlias)
    requires
        now <= u64::MAX - PROVISION_LEASE_SECS,
    ensures
        r.contact == (AliasContact {
            target: *target,
            queue_id,
            epoch,
            push_cap: capabilities.push,
            expiry: (now + PROVISION_LEASE_SECS) as u64,
        }),
        r.capabilities == capabilities,
        r.limits == limits,
        r.create_path == create_path,
        r.lease_create == lease_create,
{
    OwnedAlias {
        contact: AliasContact {
            target: *target,
            queue_id,
            epoch,
            push_cap: capabilities.push,
            expiry: now + PROVISION_LEASE_SECS,
        },
        capabilities,
        limits,
        create_path,
        lease_create,
    }
}

/// The create paths of aliases, in order.
pub open spec fn create_paths_of(aliases: Seq<OwnedAlias>) -> Seq<Seq<char>> {
    Seq::new(aliases.len(), |i: int| aliases[i].create_path@)
}

fn create_paths(aliases: &Vec<OwnedAlias>) -> (r: Vec<String>)
    ensures
        views(r@) == create_paths_of(aliases@),
{
    let mut out: Vec<String> = Vec::new();
    let mut i: usize = 0;
    while i < aliases.len()
        invariant
            i <= aliases.len(),
            out@.len() == i,
            forall|j: int| 0 <= j < i ==> (#[trigger] out@[j])@ == aliases@[j].create_path@,
        decreases aliases.len() - i,
    {
        out.push(aliases[i].create_path.clone());
        i += 1;
    }
    assert(views(out@) =~= create_paths_of(aliases@));
    out
}

/// Completes a provision with a fresh forwarding path and hop key: the node's
/// own is permanent, a public one waits to be consumed. Answers its card.
pub fn complete_provision(
    authorities: &mut ProvisionAuthorities,
    aliases: Vec<OwnedAlias>,
    frwd_path: String,
    hop_key: [u8; 32],
    permanent: bool,
    relay_identity_pk: Vec<u8>,
    relay_bundle: Vec<u8>,
    grant_lifetime_secs: u64,
    now: u64,
) -> (r: NodeInfo)
    requires
        old(authorities).wf(),
        now + grant_lifetime_secs + PROVISION_GRANT_MARGIN_SECS <= u64::MAX,
    ensures
        final(authorities).wf(),
        r.identity_pk == relay_identity_pk,
        r.bundle == relay_bundle,
        r.aliases@ == contacts_of(aliases@),
        r.provisioning matches Some(p) && p.aliases == aliases && p.frwd_path@ == frwd_path@ && p.hop_key == hop_key,
        final(authorities).authority(frwd_path@) == Some(
            if permanent {
                AuthorityView { hop_key, expires_at: None, create_paths: Seq::empty(), destinations: None }
            } else {
                AuthorityView {
                    hop_key,
                    expires_at: Some((now + grant_lifetime_secs + PROVISION_GRANT_MARGIN_SECS) as u64),
                    create_paths: create_paths_of(aliases@),
                    destinations: None,
                }
            },
        ),
        forall|k: Seq<char>| k != frwd_path@ ==> #[trigger] final(authorities).authority(k) == old(authorities).authority(k),
        forall|k: Seq<char>|
            #[trigger] final(authorities).pending.has(k) == (old(authorities).pending.has(k) || (!permanent && k == frwd_path@)),
        forall|k: Seq<char>|
            #[trigger] final(authorities).refreshed_by(k) == (if !permanent && create_paths_of(aliases@).contains(k) {
                Some(frwd_path@)
            } else {
                old(authorities).refreshed_by(k)
            }),
        final(authorities).transit_ready == old(authorities).transit_ready,
        final(authorities).admitted == old(authorities).admitted,
{
    if permanent {
        authorities.insert_permanent(frwd_path.as_str(), hop_key);
    } else {
        authorities.register_provision(
            create_paths(&aliases),
            frwd_path.as_str(),
            hop_key,
            now + grant_lifetime_secs + PROVISION_GRANT_MARGIN_SECS,
        );
    }
    NodeInfo {
        identity_pk: relay_identity_pk,
        bundle: relay_bundle,
        aliases: contacts(&aliases),
        provisioning: Some(RelayProvision { aliases, frwd_path, hop_key }),
    }
}

/// Those of the first `n` tokens whose queue has no lease any more, each once and
/// in order.
pub open spec fn ended(s: Seq<([u8; 32], String)>, n: nat, live: Seq<[u8; 32]>) -> Seq<([u8; 32], String)>
    decreases n,
{
    if n == 0 {
        Seq::empty()
    } else if live.contains(s[n - 1].0) {
        ended(s, (n - 1) as nat, live)
    } else {
        ended(s, (n - 1) as nat, live).push(s[n - 1])
    }
}

/// Forgets the tokens of queues whose lease has ended, and names each once with
/// its administration path. `live` lists the queues that still have a lease.
pub fn sweep_tokens(tokens: &mut Table<[u8; 32], String>, live: &Vec<[u8; 32]>) -> (r: Vec<([u8; 32], String)>)
    requires
        old(tokens).wf(),
    ensures
        final(tokens).wf(),
        forall|k: Seq<u8>|
            #[trigger] final(tokens).lookup(k) == (if views(live@).contains(k) {
                old(tokens).lookup(k)
            } else {
                None
            }),
        r@ == ended(old(tokens).entries@, old(tokens).entries@.len(), live@),
{
    let ghost all = tokens.entries@;
    let ghost ks = tokens.keys();
    let n: usize = tokens.entries.len();
    let mut out: Table<[u8; 32], String> = Table::new();
    let mut gone: Vec<([u8; 32], String)> = Vec::new();
    let mut i: usize = 0;
    while i < n
        invariant
            i <= n,
            n == all.len(),
            ks == crate::table::keys_of(all),
            distinct(ks),
            tokens.entries@ == all.skip(i as int),
            out.wf(),
            forall|k: Seq<u8>|
                #[trigger] out.lookup(k) == (if ks.take(i as int).contains(k) && views(live@).contains(k) {
                    Some(all[place(ks, k)].1)
                } else {
                    None
                }),
            gone@ == ended(all, i as nat, live@),
        decreases n - i,
    {
        let (queue, token) = tokens.entries.remove(0);
        assert(tokens.entries@ =~= all.skip(i + 1));
        assert((queue, token) == all[i as int]);
        let ghost before = out;
        proof {
            assert(ks[i as int] == queue@);
            assert(forall|j: int| 0 <= j < i ==> ks[j] != ks[i as int]);
            lemma_place_is(ks, queue@, i as int);
            lemma_same_id_views(live@, queue);
        }
        if has_id(live, &queue) {
            let _ = out.insert(queue, token);
        } else {
            gone.push((queue, token));
        }
        proof {
            assert forall|k: Seq<u8>|
                #[trigger] out.lookup(k) == (if ks.take(i + 1).contains(k) && views(live@).contains(k) {
                    Some(all[place(ks, k)].1)
                } else {
                    None
                }) by {
                assert(ks.take(i + 1) =~= ks.take(i as int).push(queue@));
                if k != queue@ {
                    assert(out.lookup(k) == before.lookup(k));
                    if ks.take(i as int).contains(k) {
                        let j = ks.take(i as int).index_of(k);
                        assert(ks.take(i + 1)[j] == k);
                    }
                    if ks.take(i + 1).contains(k) {
                        let j = ks.take(i + 1).index_of(k);
                        assert(ks.take(i as int)[j] == k);
                    }
                } else {
                    assert(ks.take(i + 1)[i as int] == k);
                    if ks.take(i as int).contains(k) {
                        let j = ks.take(i as int).index_of(k);
                        assert(ks[j] == ks[i as int]);
                    }
                }
            }
        }
        i += 1;
    }
    *tokens = out;
    assert(ks.take(i as int) =~= ks);
    gone
}

/// An identifier is in a list exactly where its bytes are.
proof fn lemma_same_id_views(ids: Seq<[u8; 32]>, id: [u8; 32])
    ensures
        ids.contains(id) == views(ids).contains(id@),
{
    if ids.contains(id) {
        let i = ids.index_of(id);
        assert(views(ids)[i] == id@);
    }
    if views(ids).contains(id@) {
        let i = views(ids).index_of(id@);
        let other = ids[i];
        assert forall|j: int| 0 <= j < 32 implies other[j] == id[j] by {
            assert(other@[j] == id@[j]);
        }
        assert(other =~= id);
    }
}

/// A relay whose listener is not proved reachable takes no real work.
pub proof fn unproved_relay_takes_no_work(
    authorities: ProvisionAuthorities,
    token: Seq<char>,
    hop_key: [u8; 32],
    frwd: Option<Frwd>,
    cover: bool,
    now: u64,
)
    requires
        authorities.transit_ready == Some(false),
        !cover,
    ensures
        judged(authorities, token, hop_key, frwd, cover, now) is Err,
{
}

/// What a store refuses is answered by why: a repetition is a conflict, a lack of room
/// an overload, and anything else is not authorized.
pub proof fn refusals_are_answered_by_why(e: StoreError)
    ensures
        reject_of(e) is Conflict <==> e is Replay || e is GrantConsumed,
        reject_of(e) is Overloaded <==> e is QueueFull || e is Capacity || e is ReplayCapacity,
        reject_of(e) is Unauthorized <==> e is Refused,
{
}

/// The operation of a payload is the one that its second byte names, and nothing is
/// done for a byte that names a challenge, an admission or no operation.
pub proof fn operations_are_named_by_their_byte(payload: Seq<u8>, p: Protocol)
    ensures
        payload.len() < 2 ==> operation_of(payload, p) is Err,
        payload.len() >= 2 && (payload[1] == p.op_relay_challenge || payload[1] == p.op_relay_admission) ==> operation_of(payload, p) is Err,
        operation_of(payload, p) == Ok::<AdminOperation, QueueReject>(AdminOperation::RequestGrant) ==> payload[1] == p.op_grant_request,
        operation_of(payload, p) == Ok::<AdminOperation, QueueReject>(AdminOperation::Create) ==> payload[1] == p.op_create,
        operation_of(payload, p) == Ok::<AdminOperation, QueueReject>(AdminOperation::Renew) ==> payload[1] == p.op_renew,
        operation_of(payload, p) == Ok::<AdminOperation, QueueReject>(AdminOperation::Rotate) ==> payload[1] == p.op_rotate,
        operation_of(payload, p) == Ok::<AdminOperation, QueueReject>(AdminOperation::Revoke) ==> payload[1] == p.op_revoke,
        payload.len() >= 2 && operation_of(payload, p) is Err ==> {
            ||| payload[1] == p.op_relay_challenge
            ||| payload[1] == p.op_relay_admission
            ||| ![p.op_grant_request, p.op_create, p.op_renew, p.op_rotate, p.op_revoke]@.contains(payload[1])
        },
        operation_of(payload, p) matches Err(e) ==> e is Unauthorized,
{
    let ops = [p.op_grant_request, p.op_create, p.op_renew, p.op_rotate, p.op_revoke]@;
    if payload.len() >= 2 && operation_of(payload, p) is Err && ops.contains(payload[1]) {
        let i = ops.index_of(payload[1]);
        assert(i == 0 || i == 1 || i == 2 || i == 3 || i == 4);
    }
}

/// A cell of administration asks for the operation that it names; a forwarding cell
/// asks to be forwarded, but not at a path with a temporary grant; and no other cell
/// asks for anything.
pub proof fn cells_ask_by_their_type(cell: CellView, token: Seq<char>, authorities: ProvisionAuthorities, p: Protocol)
    ensures
        request_of(cell, token, authorities, p) matches Ok(CellRequest::Admin(op)) ==> cell.raw_type == p.relay_sub && operation_of(
            cell.payload,
            p,
        ) == Ok::<AdminOperation, QueueReject>(op),
        request_of(cell, token, authorities, p) matches Ok(CellRequest::Forward) ==> cell.raw_type == p.frwd && !(authorities.frwd.lookup(
            token,
        ) matches Some(a) && a.destinations is Some),
        cell.raw_type == p.frwd && p.frwd != p.relay_sub && !(authorities.frwd.lookup(token) matches Some(a) && a.destinations is Some)
            ==> request_of(cell, token, authorities, p) == Ok::<CellRequest, QueueReject>(CellRequest::Forward),
        cell.raw_type == p.relay_sub && operation_of(cell.payload, p) is Ok ==> request_of(cell, token, authorities, p) is Ok,
        request_of(cell, token, authorities, p) matches Err(e) ==> e is Unauthorized,
{
}

/// A queue that was created has its token, one that was revoked has none, and no
/// other queue is touched. A creation counts only with a token of its kind.
pub proof fn tokens_follow_the_queues(tokens: Table<[u8; 32], String>, op: AdminOperation, queue: [u8; 32], token: Seq<char>, k: Seq<u8>)
    ensures
        op is Create ==> tokens_after(tokens, op, queue, token, queue@) == Some(token),
        op is Revoke ==> tokens_after(tokens, op, queue, token, queue@) is None,
        !(op is Create) && !(op is Revoke) ==> tokens_after(tokens, op, queue, token, k) == text_at(tokens, k),
        k != queue@ ==> tokens_after(tokens, op, queue, token, k) == text_at(tokens, k),
        tokens.lookup(k) matches Some(text) ==> text_at(tokens, k) == Some(text@),
        tokens.lookup(k) is None ==> text_at(tokens, k) is None,
        accepted(op, QueueToken::Present),
        accepted(op, QueueToken::Inserted),
        accepted(op, QueueToken::Refused) <==> !(op is Create),
        accepted(op, QueueToken::OtherKind) <==> !(op is Create),
{
}

/// An order is taken exactly where it authenticated and is permitted at its path:
/// cover is acknowledged there and then, and real work goes on its way unless the
/// relay is not known to be reachable. Anything else is not authorized.
pub proof fn orders_are_judged_by_their_grant(
    authorities: ProvisionAuthorities,
    token: Seq<char>,
    hop_key: [u8; 32],
    frwd: Option<Frwd>,
    cover: bool,
    now: u64,
)
    ensures
        ({
            let permitted = frwd matches Some(order) && authorities.permits(token, hop_key, order, now);
            let r = judged(authorities, token, hop_key, frwd, cover, now);
            &&& !permitted ==> r == Err::<FrwdAction, QueueReject>(QueueReject::Unauthorized)
            &&& permitted && cover ==> r == Ok::<FrwdAction, QueueReject>(FrwdAction::Acknowledge)
            &&& permitted && !cover && authorities.transit_ready != Some(false) ==> r == Ok::<FrwdAction, QueueReject>(FrwdAction::Enqueue)
            &&& permitted && !cover && authorities.transit_ready == Some(false) ==> r == Err::<FrwdAction, QueueReject>(
                QueueReject::Overloaded,
            )
        }),
{
}

/// The count of admitted work goes up by one, and begins anew after the last number.
pub proof fn work_is_counted_one_by_one(n: u64)
    ensures
        n < u64::MAX ==> counted(n) == n + 1,
        counted(u64::MAX) == 0,
{
}

proof fn lemma_ended(s: Seq<([u8; 32], String)>, n: nat, live: Seq<[u8; 32]>)
    requires
        n <= s.len(),
    ensures
        ended(s, n, live) == s.take(n as int).filter(|e: ([u8; 32], String)| !live.contains(e.0)),
    decreases n,
{
    reveal(Seq::filter);
    if n > 0 {
        lemma_ended(s, (n - 1) as nat, live);
        assert(s.take(n as int).drop_last() =~= s.take(n - 1));
        assert(s.take(n as int).last() == s[n - 1]);
    }
}

/// The tokens that a sweep names are those of the queues without a lease, all of them
/// and in order.
pub proof fn queues_without_a_lease_are_named(s: Seq<([u8; 32], String)>, live: Seq<[u8; 32]>)
    ensures
        ended(s, s.len(), live) == s.filter(|e: ([u8; 32], String)| !live.contains(e.0)),
{
    lemma_ended(s, s.len(), live);
    assert(s.take(s.len() as int) =~= s);
}

/// A stream stops exactly where its subscription has ended. A slot sends only where it
/// was drawn: the head of the queue wherever there is one, and cover only where there
/// is none and cover is wanted.
pub proof fn slots_send_only_when_drawn(valid: bool, drawn: bool, has_head: bool, emit_cover: bool)
    ensures
        slot_action(valid, drawn, has_head, emit_cover) == SlotAction::Stop <==> !valid,
        slot_action(valid, drawn, has_head, emit_cover) == SlotAction::SendHead <==> valid && drawn && has_head,
        slot_action(valid, drawn, has_head, emit_cover) == SlotAction::SendCover <==> valid && drawn && !has_head && emit_cover,
        slot_action(valid, drawn, has_head, emit_cover) == SlotAction::Wait <==> valid && (!drawn || (!has_head && !emit_cover)),
{
}

} // verus!
