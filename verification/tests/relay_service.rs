use gcoms_node::codec::Protocol;
use gcoms_node::error::Error;
use gcoms_node::model::{AliasContact, Capabilities, Cell, LeaseLimits, RelayTarget, SocketAddr};
use gcoms_node::table::Table;
use gcoms_node::relay_cells::{admin_operation, cell_request, complete_operation, complete_provision, provisioned_alias, push_answer, push_is_for_path, stream_slot, sweep_tokens, AdminOperation, CellRequest, EnqueueError, FrwdAction, PushOutcome, QueueReject, QueueToken, RegistryChange, SlotAction, StoreError, PROVISION_LEASE_SECS};
use gcoms_node::relay_service::{ForwardedPush, Frwd, ProvisionAuthorities, MAX_PENDING_PROVISIONS, PROVISION_FRWD_IDLE_SECS, PROVISION_GRANT_MARGIN_SECS};

fn provision(registry: &mut ProvisionAuthorities, index: usize, expires_at: u64) -> (String, String, [u8; 32]) {
    let create_paths = vec![format!("create-{index}-a"), format!("create-{index}-b")];
    let frwd_path = format!("frwd-{index}");
    let hop_key = [(index % 256) as u8; 32];
    registry.register_provision(create_paths, &frwd_path, hop_key, expires_at);
    (frwd_path, format!("create-{index}-a"), hop_key)
}

fn expiry_at(registry: &ProvisionAuthorities, path: &str) -> Option<u64> {
    registry.frwd.get(&path.to_owned()).unwrap().expires_at
}

#[test]
fn pending_public_provisions_are_bounded_and_expire() {
    let mut registry = ProvisionAuthorities::default();
    for index in 0..MAX_PENDING_PROVISIONS {
        provision(&mut registry, index, 1_000_000);
    }
    assert!(registry.ensure_capacity().is_err());
    let mut swept = registry.sweep(1_000_001);
    swept.sort();
    assert_eq!(swept.len(), MAX_PENDING_PROVISIONS * 3);
    assert!(registry.ensure_capacity().is_ok());
    assert!(registry.lookup_frwd("frwd-0", 1_000_001).is_none());
}

#[test]
fn activated_authority_slides_and_survives_sweep() {
    let mut registry = ProvisionAuthorities::default();
    let (frwd_path, create_path, hop_key) = provision(&mut registry, 9, 5_000);
    registry.note_admin_use(&create_path, 4_000);
    assert_eq!(registry.lookup_frwd(&frwd_path, 4_000), Some(hop_key));
    assert!(registry.sweep(5_000).is_empty());
    assert_eq!(registry.lookup_frwd(&frwd_path, 4_000 + PROVISION_FRWD_IDLE_SECS - 1), Some(hop_key));
    let swept = registry.sweep(4_000 + 2 * PROVISION_FRWD_IDLE_SECS);
    assert_eq!(swept, vec!["frwd-9", "create-9-a", "create-9-b"]);
    assert_eq!(registry.lookup_frwd(&frwd_path, 4_000), None);
}

#[test]
fn permanent_authority_never_expires() {
    let mut registry = ProvisionAuthorities::default();
    registry.insert_permanent("own", [7; 32]);
    assert_eq!(registry.lookup_frwd("own", u64::MAX - PROVISION_FRWD_IDLE_SECS), Some([7; 32]));
    assert!(registry.sweep(u64::MAX).is_empty());
}

#[test]
fn lookup_does_not_slide_authority_until_work_is_admitted() {
    let mut registry = ProvisionAuthorities::default();
    let (frwd_path, _, hop_key) = provision(&mut registry, 3, 1_000);
    assert_eq!(registry.lookup_frwd(&frwd_path, 1_000), None);
    assert_eq!(registry.lookup_frwd(&frwd_path, 999), Some(hop_key));
    assert_eq!(registry.lookup_frwd(&frwd_path, 1_000), None);
    assert!(registry.note_frwd_admitted(&frwd_path, &hop_key, 999));
    assert_eq!(registry.lookup_frwd(&frwd_path, 1_000), Some(hop_key));
}

#[test]
fn admission_touch_rejects_a_stale_hop_key() {
    let mut registry = ProvisionAuthorities::default();
    let (frwd_path, _, _) = provision(&mut registry, 4, 1_000);
    assert!(!registry.note_frwd_admitted(&frwd_path, &[99; 32], 900));
    assert_eq!(expiry_at(&registry, &frwd_path), Some(1_000));
}

#[test]
fn temporary_forwarding_pins_queue_target_epoch_and_never_slides() {
    let target = RelayTarget { address: SocketAddr::v4([127, 0, 0, 1], 24445), relay_service_id: [6; 32] };
    let destination = AliasContact { target, queue_id: [7; 32], epoch: 8, push_cap: [9; 32], expiry: 2000 };
    let mut registry = ProvisionAuthorities::default();
    registry.register_temporary("create".into(), "forward".into(), [5; 32], 1500, vec![destination]);
    let make = |queue_id: [u8; 32], epoch: u64| ForwardedPush { queue_id, epoch };
    let mut frwd = Frwd { target, relay_push: Some(make(destination.queue_id, destination.epoch)) };
    assert!(registry.permits_frwd("forward", &[5; 32], &frwd, 1000));
    frwd.relay_push = Some(make([12; 32], destination.epoch));
    assert!(!registry.permits_frwd("forward", &[5; 32], &frwd, 1000));
    frwd.relay_push = Some(make(destination.queue_id, destination.epoch + 1));
    assert!(!registry.permits_frwd("forward", &[5; 32], &frwd, 1000));
    frwd.relay_push = Some(make(destination.queue_id, destination.epoch));
    frwd.target.address.port = 24446;
    assert!(!registry.permits_frwd("forward", &[5; 32], &frwd, 1000));
    frwd.target = target;
    frwd.target.relay_service_id[0] ^= 1;
    assert!(!registry.permits_frwd("forward", &[5; 32], &frwd, 1000));
    registry.note_admin_use("create", 1499);
    assert!(registry.note_frwd_admitted("forward", &[5; 32], 1499));
    assert_eq!(expiry_at(&registry, "forward"), Some(1500));
    assert!(registry.lookup_frwd("forward", 1500).is_none());
}

#[test]
fn a_full_registry_names_its_refusal() {
    let mut registry = ProvisionAuthorities::default();
    for index in 0..MAX_PENDING_PROVISIONS - 1 {
        provision(&mut registry, index, 10);
    }
    assert_eq!(registry.ensure_capacity(), Ok(()));
    provision(&mut registry, MAX_PENDING_PROVISIONS, 10);
    assert_eq!(registry.ensure_capacity(), Err(Error::ProvisioningCapacity));
    // Use consumes a pending provision.
    registry.note_admin_use("create-0-a", 1);
    assert_eq!(registry.ensure_capacity(), Ok(()));
}

#[test]
fn a_temporary_grant_without_queues_carries_only_cover() {
    let target = RelayTarget { address: SocketAddr::v4([127, 0, 0, 1], 1), relay_service_id: [6; 32] };
    let mut registry = ProvisionAuthorities::default();
    registry.register_temporary("create".into(), "forward".into(), [5; 32], 10, vec![]);
    let push = ForwardedPush { queue_id: [1; 32], epoch: 2 };
    assert!(registry.permits_gc2_frwd("forward", &[5; 32], &target, None, 1));
    assert!(!registry.permits_gc2_frwd("forward", &[5; 32], &target, Some(push), 1));
    assert!(!registry.permits_gc2_frwd("elsewhere", &[5; 32], &target, None, 1));
    registry.insert_permanent("own", [7; 32]);
    assert!(registry.permits_gc2_frwd("own", &[7; 32], &target, None, 1));
    assert!(!registry.permits_gc2_frwd("own", &[8; 32], &target, None, 1));
    assert!(registry.permits_gc2_frwd("own", &[7; 32], &target, Some(push), 1));
}

#[test]
fn a_sweep_changes_no_answer() {
    let mut registry = ProvisionAuthorities::default();
    let (early, _, _) = provision(&mut registry, 1, 100);
    let (late, _, late_key) = provision(&mut registry, 2, 200);
    let before = (registry.lookup_frwd(&early, 150), registry.lookup_frwd(&late, 150));
    assert_eq!(registry.sweep(150), vec!["frwd-1", "create-1-a", "create-1-b"]);
    assert_eq!((registry.lookup_frwd(&early, 150), registry.lookup_frwd(&late, 150)), before);
    assert_eq!(before, (None, Some(late_key)));
}

#[test]
fn use_never_shortens_an_authority() {
    let mut registry = ProvisionAuthorities::default();
    let far = 10 * PROVISION_FRWD_IDLE_SECS;
    let (path, create, hop_key) = provision(&mut registry, 5, far);
    registry.note_admin_use(&create, 1);
    assert_eq!(expiry_at(&registry, &path), Some(far));
    assert!(registry.note_frwd_admitted(&path, &hop_key, 1));
    assert_eq!(expiry_at(&registry, &path), Some(far));
    assert!(registry.note_frwd_admitted(&path, &hop_key, far - 1));
    assert_eq!(expiry_at(&registry, &path), Some(far - 1 + PROVISION_FRWD_IDLE_SECS));
}

fn protocol() -> Protocol {
    Protocol {
        relay_sub: 5,
        frwd: 6,
        op_relay_challenge: 1,
        op_relay_admission: 2,
        op_grant_request: 3,
        op_create: 4,
        op_renew: 5,
        op_rotate: 6,
        op_revoke: 7,
        lease_create_len: 300,
        lease_renew_len: 120,
        channel_max: 64,
        channel_ack_limit: 256,
        forward_grants_max: 64,
        application_inbox_limit: 1024,
        receipts_max: 4096,
    }
}

fn order(marker: u8) -> Frwd {
    Frwd {
        target: RelayTarget { address: SocketAddr::v4([127, 0, 0, 1], 443), relay_service_id: [marker; 32] },
        relay_push: Some(ForwardedPush { queue_id: [marker; 32], epoch: 1 }),
    }
}

/// A posted order from the door to its lane.
fn post_order(
    registry: &mut ProvisionAuthorities,
    path: &str,
    frwd: Option<Frwd>,
    lane: Result<(), EnqueueError>,
    now: u64,
) -> Result<(), QueueReject> {
    let key = registry.begin_frwd(path, now)?;
    match registry.judge_frwd(path, &key, frwd, false, now)? {
        FrwdAction::Acknowledge => Ok(()),
        FrwdAction::Enqueue => registry.end_frwd(path, &key, lane, now),
    }
}

#[test]
fn malformed_frwd_does_not_slide_authority() {
    let now = 1_000;
    let expires_at = now + 60;
    let mut registry = ProvisionAuthorities::default();
    let (path, _, _) = provision(&mut registry, 5, expires_at);
    assert_eq!(post_order(&mut registry, &path, None, Ok(()), now), Err(QueueReject::Unauthorized));
    assert_eq!(expiry_at(&registry, &path), Some(expires_at));
}

#[test]
fn automatic_transit_refuses_unprobed_real_work_without_sliding_authority() {
    let now = 1_000;
    let expires_at = now + 60;
    let mut registry = ProvisionAuthorities { transit_ready: Some(false), ..Default::default() };
    let (path, _, _) = provision(&mut registry, 7, expires_at);
    assert_eq!(post_order(&mut registry, &path, Some(order(6)), Ok(()), now), Err(QueueReject::Overloaded));
    assert_eq!(expiry_at(&registry, &path), Some(expires_at));
    assert_eq!(registry.admitted, 0);
    registry.transit_ready = Some(true);
    assert!(post_order(&mut registry, &path, Some(order(6)), Ok(()), now).is_ok());
    assert_eq!(registry.admitted, 1);
}

#[test]
fn successful_frwd_admission_slides_authority_before_success() {
    let now = 1_000;
    let expires_at = now + 60;
    let mut registry = ProvisionAuthorities::default();
    let (path, _, _) = provision(&mut registry, 6, expires_at);
    assert!(post_order(&mut registry, &path, Some(order(6)), Ok(()), now).is_ok());
    assert!(expiry_at(&registry, &path).is_some_and(|expires| expires > expires_at));
    assert_eq!(expiry_at(&registry, &path), Some(now + PROVISION_FRWD_IDLE_SECS));
}

#[test]
fn scheduler_shutdown_rejects_frwd_without_sliding_authority() {
    let now = 1_000;
    let expires_at = now + 60;
    let mut registry = ProvisionAuthorities::default();
    let (path, _, _) = provision(&mut registry, 7, expires_at);
    assert_eq!(
        post_order(&mut registry, &path, Some(order(7)), Err(EnqueueError::Shutdown), now),
        Err(QueueReject::Overloaded)
    );
    assert_eq!(expiry_at(&registry, &path), Some(expires_at));
    assert_eq!(registry.admitted, 0);
}

#[test]
fn full_forward_lane_rejects_frwd_without_sliding_authority() {
    let now = 1_000;
    let expires_at = now + 60;
    let mut registry = ProvisionAuthorities::default();
    let (path, _, _) = provision(&mut registry, 8, expires_at);
    assert_eq!(
        post_order(&mut registry, &path, Some(order(8)), Err(EnqueueError::Full), now),
        Err(QueueReject::Overloaded)
    );
    assert_eq!(expiry_at(&registry, &path), Some(expires_at));
    assert_eq!(registry.admitted, 0);
}

#[test]
fn a_cell_that_the_lane_cannot_carry_is_unauthorized() {
    let mut registry = ProvisionAuthorities::default();
    let (path, _, _) = provision(&mut registry, 8, 2_000);
    let refused = post_order(&mut registry, &path, Some(order(8)), Err(EnqueueError::InvalidCell), 1_000);
    assert_eq!(refused, Err(QueueReject::Unauthorized));
    assert_eq!(registry.begin_frwd("elsewhere", 1_000), Err(QueueReject::Unauthorized));
    assert_eq!(registry.begin_frwd(&path, 2_000), Err(QueueReject::Unauthorized));
}

#[test]
fn cover_is_acknowledged_and_slides_at_once() {
    let mut registry = ProvisionAuthorities { transit_ready: Some(false), ..Default::default() };
    let (path, _, key) = provision(&mut registry, 1, 2_000);
    let cover = Frwd { relay_push: None, ..order(1) };
    assert_eq!(registry.judge_frwd(&path, &key, Some(cover), true, 1_000), Ok(FrwdAction::Acknowledge));
    assert_eq!(expiry_at(&registry, &path), Some(1_000 + PROVISION_FRWD_IDLE_SECS));
    assert_eq!(registry.admitted, 0);
}

fn cell(raw_type: u8, payload: Vec<u8>) -> Cell {
    Cell { version: 1, raw_type, flags: 0, round_ctr: 0, payload }
}

#[test]
fn the_second_byte_names_the_operation() {
    let p = protocol();
    let ask = |op: u8| admin_operation(&vec![1, op], &p);
    assert_eq!(ask(3), Ok(AdminOperation::RequestGrant));
    assert_eq!(ask(4), Ok(AdminOperation::Create));
    assert_eq!(ask(5), Ok(AdminOperation::Renew));
    assert_eq!(ask(6), Ok(AdminOperation::Rotate));
    assert_eq!(ask(7), Ok(AdminOperation::Revoke));
    assert_eq!(ask(1), Err(QueueReject::Unauthorized));
    assert_eq!(ask(2), Err(QueueReject::Unauthorized));
    assert_eq!(ask(99), Err(QueueReject::Unauthorized));
    assert_eq!(admin_operation(&vec![1], &p), Err(QueueReject::Unauthorized));
}

#[test]
fn a_temporary_path_is_closed_to_first_generation_orders() {
    let p = protocol();
    let mut registry = ProvisionAuthorities::default();
    registry.insert_permanent("own", [7; 32]);
    registry.register_temporary("create".into(), "forward".into(), [5; 32], 10, vec![]);
    assert_eq!(cell_request(&cell(5, vec![1, 4]), "own", &registry, &p), Ok(CellRequest::Admin(AdminOperation::Create)));
    assert_eq!(cell_request(&cell(6, vec![]), "own", &registry, &p), Ok(CellRequest::Forward));
    assert_eq!(cell_request(&cell(6, vec![]), "forward", &registry, &p), Err(QueueReject::Unauthorized));
    assert_eq!(cell_request(&cell(9, vec![]), "own", &registry, &p), Err(QueueReject::Unauthorized));
}

#[test]
fn operations_move_the_tokens_of_queues() {
    let mut registry = ProvisionAuthorities::default();
    let (path, create, _) = provision(&mut registry, 2, 5_000);
    let mut tokens: Table<[u8; 32], String> = Table::new();
    let queue = [3; 32];
    let refused = complete_operation(&mut registry, &mut tokens, AdminOperation::Create, Err(StoreError::Replay), QueueToken::Inserted, &create, 10);
    assert_eq!(refused, Err(QueueReject::Conflict));
    let other = complete_operation(&mut registry, &mut tokens, AdminOperation::Create, Ok(queue), QueueToken::OtherKind, &create, 10);
    assert_eq!(other, Err(QueueReject::Conflict));
    assert_eq!(expiry_at(&registry, &path), Some(5_000));
    let made = complete_operation(&mut registry, &mut tokens, AdminOperation::Create, Ok(queue), QueueToken::Inserted, &create, 10);
    assert_eq!(made, Ok(RegistryChange::Nothing));
    assert_eq!(tokens.get(&queue), Some(&create));
    assert_eq!(expiry_at(&registry, &path), Some(10 + PROVISION_FRWD_IDLE_SECS));
    let gone = complete_operation(&mut registry, &mut tokens, AdminOperation::Revoke, Ok(queue), QueueToken::Present, &create, 10);
    assert_eq!(gone, Ok(RegistryChange::RemoveQueue));
    assert_eq!(tokens.get(&queue), None);
}

#[test]
fn tokens_of_ended_leases_are_swept() {
    let mut tokens: Table<[u8; 32], String> = Table::new();
    tokens.insert([1; 32], "one".into());
    tokens.insert([2; 32], "two".into());
    assert_eq!(sweep_tokens(&mut tokens, &vec![[2; 32]]), vec![([1; 32], "one".to_owned())]);
    assert_eq!(tokens.get(&[2; 32]), Some(&"two".to_owned()));
    assert_eq!(tokens.get(&[1; 32]), None);
}

#[test]
fn refusals_of_the_store_have_their_answers() {
    assert_eq!(push_answer(Ok(PushOutcome::Cover)), Ok(()));
    assert_eq!(push_answer(Ok(PushOutcome::Duplicate)), Ok(()));
    assert_eq!(push_answer(Err(StoreError::GrantConsumed)), Err(QueueReject::Conflict));
    assert_eq!(push_answer(Err(StoreError::QueueFull)), Err(QueueReject::Overloaded));
    assert_eq!(push_answer(Err(StoreError::ReplayCapacity)), Err(QueueReject::Overloaded));
    assert_eq!(push_answer(Err(StoreError::Refused)), Err(QueueReject::Unauthorized));
    assert_eq!(push_is_for_path(Some([1; 32]), Some([1; 32])), Ok(()));
    assert_eq!(push_is_for_path(Some([1; 32]), Some([2; 32])), Err(QueueReject::Unauthorized));
    assert_eq!(push_is_for_path(None, None), Err(QueueReject::Unauthorized));
}

#[test]
fn a_slot_sends_the_head_before_cover() {
    assert_eq!(stream_slot(false, true, true, true), SlotAction::Stop);
    assert_eq!(stream_slot(true, false, true, true), SlotAction::Wait);
    assert_eq!(stream_slot(true, true, true, true), SlotAction::SendHead);
    assert_eq!(stream_slot(true, true, false, true), SlotAction::SendCover);
    assert_eq!(stream_slot(true, true, false, false), SlotAction::Wait);
}

#[test]
fn a_public_provision_waits_and_an_own_one_stays() {
    let target = RelayTarget { address: SocketAddr::v4([127, 0, 0, 1], 443), relay_service_id: [6; 32] };
    let capabilities = Capabilities { push: [1; 32], sub: [2; 32], admin: [3; 32] };
    let limits = LeaseLimits { max_queue_cells: 8, max_queue_bytes: 4096 };
    let alias = provisioned_alias(&target, [4; 32], 5, capabilities, limits, "path".into(), cell(5, vec![1]), 1_000);
    assert_eq!(alias.contact.expiry, 1_000 + PROVISION_LEASE_SECS);
    assert_eq!(alias.contact.push_cap, [1; 32]);
    let mut registry = ProvisionAuthorities::default();
    let card = complete_provision(&mut registry, vec![alias.clone()], "public".into(), [9; 32], false, vec![1], vec![2], 60, 1_000);
    assert_eq!(card.aliases, vec![alias.contact]);
    assert_eq!(expiry_at(&registry, "public"), Some(1_060 + PROVISION_GRANT_MARGIN_SECS));
    assert!(registry.pending.contains_key(&"public".to_owned()));
    assert_eq!(registry.by_create_path.get(&alias.create_path), Some(&"public".to_owned()));
    complete_provision(&mut registry, vec![alias], "own".into(), [8; 32], true, vec![1], vec![2], 60, 1_000);
    assert_eq!(expiry_at(&registry, "own"), None);
    assert!(!registry.pending.contains_key(&"own".to_owned()));
}
