use gcoms_node::codec::{Codec, NodeKeys, Protocol, Renewal};
use gcoms_node::error::Error;
use gcoms_node::model::{AliasContact, Capabilities, Cell, LeaseLimits, NodeInfo, OwnedAlias, RelayProvision, RelayTarget, SocketAddr};
use gcoms_node::owner_aliases::{Group, Record, RestoreClock, Role};
use gcoms_node::owner_record::{open_unbound, seal};
use gcoms_node::owner_restore::{Restoration, RestoreStep};
use gcoms_node::owner_state::{absolute, alias_expiry, DrainingContactAliases, OwnerState};
use gcoms_node::profile::AliasLifecycleConfig;
use gcoms_node::seal::SessionContext;
use gcoms_node::table::Table;
use gcoms_node::time::{Duration, Instant};

const MAX_RECORD_BYTES: usize = 256 * 1024;

fn protocol() -> Protocol {
    Protocol {
        relay_sub: 5,
        frwd: 6,
        op_relay_challenge: 1,
        op_relay_admission: 2,
        op_grant_request: 3,
        op_create: 4,
        op_renew: 5,
        op_rotate: 6,
        op_revoke: 7,
        lease_create_len: 220,
        lease_renew_len: 66,
        channel_max: 64,
        channel_ack_limit: 256,
        forward_grants_max: 64,
        application_inbox_limit: 1024,
        receipts_max: 4096,
    }
}

/// A lease operation: what it creates, a nonce and the identifier of its grant.
fn create_wire(contact: &AliasContact, capabilities: &Capabilities, limits: &LeaseLimits, nonce: u8, grant: u8) -> Vec<u8> {
    let mut out = vec![1, 4];
    out.extend(contact.queue_id);
    out.extend(contact.epoch.to_be_bytes());
    out.extend(contact.expiry.to_be_bytes());
    out.extend(limits.max_queue_cells.to_be_bytes());
    out.extend(limits.max_queue_bytes.to_be_bytes());
    out.extend(capabilities.push);
    out.extend(capabilities.sub);
    out.extend(capabilities.admin);
    out.extend([nonce; 32]);
    out.extend([grant; 32]);
    out
}

/// The lease operation's grant, as text.
fn grant_path(wire: &[u8]) -> String {
    format!("grant-{}", wire[wire.len() - 1])
}

fn renew_wire(contact: &AliasContact, admin: &[u8; 32], nonce: u8) -> Vec<u8> {
    let mut out = vec![1, 5];
    out.extend(contact.queue_id);
    out.extend(contact.epoch.to_be_bytes());
    out.extend(contact.expiry.to_be_bytes());
    out.extend([nonce ^ admin[0]; 16]);
    out
}

/// The expiry that the lease operation asked for.
fn created_expiry(wire: &[u8]) -> u64 {
    u64::from_be_bytes(wire[42..50].try_into().unwrap())
}

fn is_retained(alias: &OwnedAlias) -> bool {
    let wire = &alias.lease_create.payload;
    wire.len() == 220
        && *wire == create_wire(&alias.contact, &alias.capabilities, &alias.limits, wire[156], wire[219])
        && alias.create_path == grant_path(wire)
}

fn alias_card(identity: &[u8], provision: &RelayProvision) -> NodeInfo {
    NodeInfo {
        identity_pk: identity.to_vec(),
        bundle: vec![],
        aliases: provision.aliases.iter().map(|a| a.contact).collect(),
        provisioning: Some(provision.clone()),
    }
}

fn keys(byte: u8) -> NodeKeys {
    NodeKeys {
        seed: [byte; 32],
        identity_public: vec![byte.wrapping_add(1); 32],
        archive_key: [byte.wrapping_add(2); 32],
        wrapping_key: [byte.wrapping_add(3); 32],
    }
}

/// What the host's codecs say of the values in a record.
fn host(record: &Record, keys: &NodeKeys) -> Codec {
    let mut codec = Codec::empty();
    let context = SessionContext::of_identity(&keys.identity_public, b"owner-aliases", b"lifecycle", b"gc1/owner-aliases/v1");
    codec.contexts.insert(context, b"owner".to_vec());
    for group in &record.groups {
        let original = RelayProvision { aliases: group.origins.clone(), ..group.provision.clone() };
        for card in [alias_card(&keys.identity_public, &group.provision), alias_card(&keys.identity_public, &original)] {
            if codec.encode_private(&card).is_none() {
                let n = codec.private_cards.entries.len() as u8;
                codec.private_cards.insert(vec![0xca, n], card);
            }
        }
        for (alias, origin) in group.provision.aliases.iter().zip(&group.origins) {
            if is_retained(origin) {
                codec.retained.push(origin.clone());
            }
            let mut as_created = origin.clone();
            as_created.contact.expiry = alias.contact.expiry;
            for candidate in [as_created, alias.clone()] {
                let wire = &candidate.lease_create.payload;
                let mut first = candidate.clone();
                first.contact.expiry = created_expiry(wire);
                if !is_retained(&first) {
                    continue;
                }
                match record.renewals.get(&candidate.contact.queue_id) {
                    None if candidate.contact.expiry == created_expiry(wire) => {
                        codec.renewed.push(Renewal { alias: candidate, wire: None });
                    }
                    Some(renewal) if *renewal == renew_wire(&candidate.contact, &candidate.capabilities.admin, 61) => {
                        codec.renewed.push(Renewal { alias: candidate, wire: Some(renewal.clone()) });
                    }
                    _ => {}
                }
            }
        }
    }
    codec
}

fn copy(record: &Record) -> Record {
    let mut renewals: Table<[u8; 32], Vec<u8>> = Table::new();
    for (queue, wire) in &record.renewals.entries {
        renewals.insert(*queue, wire.clone());
    }
    Record {
        captured_ms: record.captured_ms,
        activated_ms: record.activated_ms,
        groups: record.groups.clone(),
        renewals,
    }
}

fn valid(record: &Record, target: &RelayTarget) -> Result<(), Error> {
    record.validate(target, &host(record, &keys(42)), &protocol())
}

fn seal_it(record: &Record, target: &RelayTarget) -> Result<Vec<u8>, Error> {
    seal(record, target, &keys(42), &host(record, &keys(42)), &protocol())
}

fn open(bytes: &[u8], target: &RelayTarget, keys: &NodeKeys, codec: &Codec) -> Result<Record, Error> {
    let record = open_unbound(bytes, keys, codec, &protocol())?;
    record.validate(target, codec, &protocol())?;
    Ok(record)
}

fn fixture() -> (Record, RelayTarget) {
    let target = RelayTarget { address: SocketAddr::v4([127, 0, 0, 1], 4444), relay_service_id: [9; 32] };
    let aliases: Vec<OwnedAlias> = (1u8..=2)
        .map(|n| {
            let capabilities = Capabilities { push: [n + 2; 32], sub: [n + 4; 32], admin: [n + 6; 32] };
            let contact = AliasContact { target, queue_id: [n; 32], epoch: u64::from(n), push_cap: capabilities.push, expiry: 20 };
            let limits = LeaseLimits { max_queue_cells: 8, max_queue_bytes: 4096 };
            let wire = create_wire(&contact, &capabilities, &limits, n + 8, n + 10);
            OwnedAlias {
                contact,
                capabilities,
                limits,
                create_path: grant_path(&wire),
                lease_create: Cell { version: 1, raw_type: 5, flags: 0, round_ctr: 0, payload: wire },
            }
        })
        .collect();
    (
        Record {
            captured_ms: 10_000,
            activated_ms: 2_000,
            renewals: Table::new(),
            groups: vec![Group {
                role: Role::Active,
                origins: aliases.clone(),
                provision: RelayProvision { aliases, frwd_path: "retained-forward".into(), hop_key: [8; 32] },
                deadline_ms: 20_000,
                action_ms: 18_000,
                receive_until_ms: 0,
            }],
        },
        target,
    )
}

/// Another group of the first one's making, with queues of its own.
fn sibling(record: &Record, role: Role, i: u8) -> Group {
    let mut group = record.groups[0].clone();
    group.role = role;
    group.receive_until_ms = if matches!(role, Role::Unannounced | Role::Draining) { group.action_ms } else { 0 };
    if role == Role::Staged {
        group.action_ms = 0;
    }
    for alias in &mut group.provision.aliases {
        alias.contact.queue_id[0] += (i + 1) * 10;
        let wire = create_wire(&alias.contact, &alias.capabilities, &alias.limits, 17, 17 + i);
        alias.create_path = grant_path(&wire);
        alias.lease_create.payload = wire;
    }
    group.origins = group.provision.aliases.clone();
    group
}

#[test]
fn owner_record_roundtrip_preserves_all_roles_and_private_material() {
    let (mut record, target) = fixture();
    for (i, role) in [Role::Staged, Role::Unannounced, Role::Draining].into_iter().enumerate() {
        let group = sibling(&record, role, i as u8);
        record.groups.push(group);
    }
    let codec = host(&record, &keys(42));
    let sealed = seal_it(&record, &target).unwrap();
    let restored = open(&sealed, &target, &keys(42), &codec).unwrap();
    assert_eq!(restored.captured_ms, record.captured_ms);
    assert_eq!(restored.activated_ms, record.activated_ms);
    assert_eq!(restored.groups.len(), record.groups.len());
    for (a, b) in restored.groups.iter().zip(record.groups.iter()) {
        assert_eq!(a.role, b.role);
        assert_eq!(a.provision, b.provision);
        assert_eq!(a.origins, b.origins);
        assert_eq!(a.deadline_ms, b.deadline_ms);
        assert_eq!(a.action_ms, b.action_ms);
    }
    assert!(open(&sealed, &target, &keys(43), &host(&record, &keys(43))).is_err());
    let mut damaged = sealed;
    let last = damaged.len() - 1;
    damaged[last] ^= 1;
    assert!(open(&damaged, &target, &keys(42), &codec).is_err());
}

#[test]
fn owner_record_rejects_queue_collision_across_roles_even_different_epoch() {
    let (mut record, target) = fixture();
    let mut group = record.groups[0].clone();
    group.role = Role::Draining;
    group.receive_until_ms = group.action_ms;
    let alias = &mut group.provision.aliases[0];
    alias.contact.epoch += 1;
    let wire = create_wire(&alias.contact, &alias.capabilities, &alias.limits, 53, 51);
    alias.create_path = grant_path(&wire);
    alias.lease_create.payload = wire;
    group.origins = group.provision.aliases.clone();
    record.groups.push(group);
    assert_eq!(valid(&record, &target), Err(Error::InvalidBinding));
}

#[test]
fn owner_record_rejects_target_caps_deadline_and_malformed_record() {
    let (record, target) = fixture();
    let codec = host(&record, &keys(42));
    let sealed = seal_it(&record, &target).unwrap();
    let mut wrong_target = target;
    wrong_target.relay_service_id[0] ^= 1;
    assert!(open(&sealed, &wrong_target, &keys(42), &codec).is_err());
    let mut wrong = copy(&record);
    wrong.groups[0].provision.aliases[0].contact.push_cap = [99; 32];
    assert!(valid(&wrong, &target).is_err());
    let mut wrong = record;
    wrong.groups[0].deadline_ms = 20_001;
    assert!(valid(&wrong, &target).is_err());
    assert!(open(&[], &target, &keys(42), &codec).is_err());
    assert!(open(&vec![0; MAX_RECORD_BYTES + 65], &target, &keys(42), &codec).is_err());
}

#[test]
fn owner_renewal_preserves_original_operation_and_budget() {
    let (mut record, target) = fixture();
    let prior = record.groups[0].provision.aliases[0].clone();
    let expiry = prior.contact.expiry + 100;
    let mut renewed = prior.contact;
    renewed.expiry = expiry;
    let wire = renew_wire(&renewed, &prior.capabilities.admin, 61);
    record.groups[0].provision.aliases[0].contact.expiry = expiry;
    assert!(valid(&record, &target).is_err());
    record.renewals.insert(prior.contact.queue_id, wire.clone());
    let codec = host(&record, &keys(42));
    let sealed = seal_it(&record, &target).unwrap();
    let restored = open(&sealed, &target, &keys(42), &codec).unwrap();
    assert_eq!(restored.groups[0].origins[0], prior);
    assert_eq!(restored.groups[0].deadline_ms, record.groups[0].deadline_ms);
    assert_eq!(restored.renewals.get(&prior.contact.queue_id), Some(&wire));
    let mut wrong = copy(&record);
    let mut torn = wire.clone();
    torn[10] ^= 1;
    wrong.renewals.insert(prior.contact.queue_id, torn);
    assert!(valid(&wrong, &target).is_err());
    let mut wrong = copy(&record);
    wrong.groups[0].deadline_ms = expiry * 1000;
    assert!(valid(&wrong, &target).is_err());
    let mut wrong = record;
    wrong.groups[0].provision.aliases[0].contact.target.address = SocketAddr::v4([0, 0, 0, 0], 0);
    wrong.groups[0].origins[0].contact.target.address = SocketAddr::v4([0, 0, 0, 0], 0);
    wrong.groups[0].role = Role::Draining;
    wrong.groups[0].receive_until_ms = wrong.groups[0].action_ms;
    assert!(valid(&wrong, &target).is_err());
}

fn at(start: Instant, span: Duration) -> Instant {
    start.checked_add(span).unwrap()
}

const START: Instant = Instant { nanos: 1_000_000_000_000 };

#[test]
fn owner_clock_refuses_decreasing_monotonic_observation_after_start() {
    let start = START;
    let mut clock = RestoreClock::new(100, 100, start).unwrap();
    assert_eq!(clock.observe(100, at(start, Duration::from_millis(20))).unwrap(), 120);
    assert!(clock.observe(100, at(start, Duration::from_millis(19))).is_err());
}

#[test]
fn owner_clock_counts_offline_restore_and_active_age_without_rounding_up_budget() {
    let (record, _) = fixture();
    let start = START;
    let mut clock = RestoreClock::new(record.captured_ms, 15_000, start).unwrap();
    let effective = clock.observe(15_000, at(start, Duration::from_micros(1_500))).unwrap();
    assert_eq!(effective, 15_002);
    assert_eq!(record.active_age(effective).unwrap(), Duration::from_millis(13_002));
    assert!(Record::may_restore(&record.groups[0], effective).unwrap());
    let effective = clock.observe(15_000, at(start, Duration::from_secs(5))).unwrap();
    assert_eq!(effective, 20_000);
    assert!(Record::may_restore(&record.groups[0], effective).is_err());
}

#[test]
fn owner_clock_regression_and_due_cleanup_refuse_recreation() {
    let (mut record, _) = fixture();
    let start = START;
    assert!(RestoreClock::new(record.captured_ms, 9_999, start).is_err());
    let mut clock = RestoreClock::new(record.captured_ms, 15_000, start).unwrap();
    clock.observe(16_000, start).unwrap();
    assert!(clock.observe(15_999, at(start, Duration::from_secs(1))).is_err());
    record.groups[0].role = Role::Draining;
    record.groups[0].receive_until_ms = record.groups[0].action_ms;
    assert!(!Record::may_restore(&record.groups[0], 18_000).unwrap());
    assert!(!Record::may_restore(&record.groups[0], 20_000).unwrap());
}

#[test]
fn owner_record_refuses_mismatched_leasecreate_and_nonactive_expiry_before_use() {
    let (record, target) = fixture();
    let mut wrong = copy(&record);
    wrong.groups[0].provision.aliases[0].contact.epoch += 1;
    assert!(seal_it(&wrong, &target).is_err());
    let mut wrong = copy(&record);
    wrong.groups[0].provision.aliases[0].lease_create.payload[50] ^= 1;
    assert!(seal_it(&wrong, &target).is_err());
    let mut wrong = copy(&record);
    wrong.groups[0].provision.aliases[0].create_path = "unrelated-grant".into();
    assert!(seal_it(&wrong, &target).is_err());
    let mut expired = record.groups[0].clone();
    expired.role = Role::Staged;
    expired.action_ms = 0;
    assert!(!Record::may_restore(&expired, expired.deadline_ms).unwrap());
    assert!(record.validate_live(20_000).is_err());
}

#[test]
fn each_defect_of_a_record_has_its_name() {
    let (record, target) = fixture();
    assert_eq!(valid(&record, &target), Ok(()));
    let mut wrong = copy(&record);
    wrong.captured_ms = 0;
    assert_eq!(valid(&wrong, &target), Err(Error::InvalidTimeOrGroupCount));
    let mut wrong = copy(&record);
    wrong.activated_ms = 10_001;
    assert_eq!(valid(&wrong, &target), Err(Error::InvalidTimeOrGroupCount));
    let mut wrong = copy(&record);
    wrong.groups[0].provision.hop_key = [0; 32];
    assert_eq!(valid(&wrong, &target), Err(Error::InvalidLifecycleGroup));
    let mut wrong = copy(&record);
    wrong.groups[0].provision.aliases.pop();
    assert_eq!(valid(&wrong, &target), Err(Error::InvalidAliasCount));
    let mut wrong = copy(&record);
    wrong.groups[0].provision.aliases[1].contact.queue_id = [1; 32];
    assert_eq!(valid(&wrong, &target), Err(Error::CapabilitiesOverlap));
    let mut wrong = copy(&record);
    wrong.groups[0].origins.pop();
    assert_eq!(valid(&wrong, &target), Err(Error::MissingOriginalOperation));
    let mut wrong = copy(&record);
    wrong.groups[0].origins[0].lease_create.payload[2] ^= 1;
    assert_eq!(valid(&wrong, &target), Err(Error::LeaseRefused));
    let mut wrong = copy(&record);
    wrong.renewals.insert([77; 32], vec![1]);
    assert_eq!(valid(&wrong, &target), Err(Error::OrphanRenewal));
    let mut wrong = copy(&record);
    let second = sibling(&record, Role::Active, 0);
    wrong.groups.push(second);
    assert_eq!(valid(&wrong, &target), Err(Error::InvalidRoleMultiplicity));
}

#[test]
fn a_record_without_a_context_is_not_sealed() {
    let (record, target) = fixture();
    let mut codec = host(&record, &keys(42));
    codec.contexts = Table::new();
    assert_eq!(seal(&record, &target, &keys(42), &codec, &protocol()), Err(Error::ContextRefused));
    codec.private_cards = Table::new();
    assert_eq!(seal(&record, &target, &keys(42), &codec, &protocol()), Err(Error::InvalidPrivateCard));
}

#[test]
fn deadlines_are_reckoned_from_the_effective_time() {
    assert_eq!(absolute(at(START, Duration::from_micros(2_999)), START, 10_000), Ok(10_002));
    assert_eq!(absolute(START, at(START, Duration::from_micros(2_001)), 10_000), Ok(9_997));
    assert_eq!(absolute(at(START, Duration::from_secs(1)), START, u64::MAX), Err(Error::DeadlineOverflow));
    let (record, _) = fixture();
    assert_eq!(alias_expiry(&record.groups[0].provision.aliases), Ok(20_000));
    assert_eq!(alias_expiry(&vec![]), Err(Error::AliasSetEmpty));
}

fn owner(record: &Record, wall_ms: u64) -> OwnerState {
    OwnerState {
        client_relay: record.groups[0].provision.clone(),
        staged_contact_aliases: None,
        unannounced_old_contact_aliases: None,
        unannounced_contact_deadlines: None,
        draining_contact_aliases: vec![],
        owner_alias_origins: Table::new(),
        owner_alias_renewals: Table::new(),
        contact_aliases_activated: START,
        alias_lifecycle_timing: AliasLifecycleConfig::default(),
        owner_clock: RestoreClock::fresh(wall_ms, START).unwrap(),
        public_aliases: vec![],
        routed: false,
    }
}

#[test]
fn a_sealed_owner_opens_to_its_own_roles_with_no_more_time() {
    let (record, target) = fixture();
    let mut st = owner(&record, 10_000);
    let codec = host(&record, &keys(42));
    let sealed = st.seal_current(10_000, START, &keys(42), &codec, &protocol()).unwrap();
    let back = open(&sealed, &target, &keys(42), &codec).unwrap();
    assert_eq!(back.captured_ms, 10_000);
    assert_eq!(back.groups.len(), 1);
    assert_eq!(back.groups[0].provision, record.groups[0].provision);
    assert!(back.groups[0].deadline_ms <= 20_000);
    // Seen again later, the same deadline is nearer, never farther.
    let later = at(START, Duration::from_secs(1));
    let again = st.seal_current(11_000, later, &keys(42), &codec, &protocol()).unwrap();
    let back_again = open(&again, &target, &keys(42), &codec).unwrap();
    assert_eq!(back_again.captured_ms, 11_000);
    assert!(back_again.groups[0].deadline_ms <= back.groups[0].deadline_ms);
}

#[test]
fn restored_roles_come_from_the_record() {
    let (mut record, _) = fixture();
    let mut draining = sibling(&record, Role::Draining, 2);
    draining.deadline_ms = 18_000;
    record.groups.push(draining);
    let mut st = owner(&record, 15_000);
    let clock = RestoreClock::new(record.captured_ms, 15_000, START).unwrap();
    assert_eq!(record.apply(&mut st, clock, 15_000, START, 15, &vec![]), Ok(()));
    assert_eq!(st.client_relay, record.groups[0].provision);
    assert_eq!(st.draining_contact_aliases.len(), 1);
    assert_eq!(st.draining_contact_aliases[0].aliases, record.groups[1].provision.aliases);
    // Drained queues that are past their end do not return.
    let mut st = owner(&record, 18_500);
    let clock = RestoreClock::new(record.captured_ms, 18_500, START).unwrap();
    assert_eq!(record.apply(&mut st, clock, 18_500, START, 18, &vec![]), Ok(()));
    assert_eq!(st.draining_contact_aliases.len(), 0);
    let mut st = owner(&record, 20_000);
    let clock = RestoreClock::new(record.captured_ms, 20_000, START).unwrap();
    assert!(record.apply(&mut st, clock, 20_000, START, 20, &vec![]).is_err());
}

#[test]
fn owner_saved_rotation_deadline_survives_longer_current_setting() {
    let (record, _) = fixture();
    let codec = host(&record, &keys(42));
    let mut node = owner(&record, 10_000);
    let sealed = node.seal_current(10_000, START, &keys(42), &codec, &protocol()).unwrap();
    let mut record = open_unbound(&sealed, &keys(42), &codec, &protocol()).unwrap();
    record.groups[0].action_ms = record.captured_ms;
    let clock = RestoreClock::new(record.captured_ms, 10_000, START).unwrap();
    record.apply(&mut node, clock, 10_000, START, 10, &vec![]).unwrap();
    let timing = AliasLifecycleConfig { alias_ttl: Duration::from_secs(7 * 86400), ..Default::default() };
    assert!(node.rotation_due(timing, 10_000, START).unwrap());
}

#[test]
fn owner_recovery_replaces_retained_roles_without_duplicate_queues() {
    let (record, _) = fixture();
    let mut all = copy(&record);
    let draining = sibling(&record, Role::Draining, 2);
    let aliases = draining.provision.aliases.clone();
    all.groups.push(draining);
    let codec = host(&all, &keys(42));
    let mut node = owner(&record, 10_000);
    let in_secs = |secs: u64| at(START, Duration::from_secs(secs));
    node.draining_contact_aliases.push(DrainingContactAliases {
        aliases: aliases.clone(),
        receive_until: in_secs(3),
        next_revoke: in_secs(3),
        abandon_at: in_secs(6),
    });
    let seal_now = |node: &mut OwnerState| {
        let sealed = node.seal_current(10_000, START, &keys(42), &codec, &protocol()).unwrap();
        open_unbound(&sealed, &keys(42), &codec, &protocol()).unwrap()
    };
    let original = seal_now(&mut node);
    assert_eq!(original.groups.len(), 2);
    for _ in 0..2 {
        let record = seal_now(&mut node);
        let clock = RestoreClock::new(record.captured_ms, 10_000, START).unwrap();
        record.apply_retained(&mut node, clock, false, 10_000, START, 10, &vec![]).unwrap();
        assert_eq!(node.draining_contact_aliases.len(), 1);
        assert_eq!(node.draining_contact_aliases[0].aliases, aliases);
        let saved = seal_now(&mut node);
        assert_eq!(saved.groups.len(), original.groups.len());
        for (before, after) in original.groups.iter().zip(&saved.groups) {
            assert_eq!(before.role, after.role);
            assert_eq!(before.provision, after.provision);
            assert_eq!(before.origins, after.origins);
            assert!(after.deadline_ms <= before.deadline_ms);
            assert!(after.receive_until_ms <= before.receive_until_ms);
        }
    }
}

#[test]
fn readmission_goes_alias_by_alias_and_keeps_authority() {
    let (record, _) = fixture();
    let codec = host(&record, &keys(42));
    let current = record.groups[0].provision.clone();
    let mut clock = RestoreClock::new(10_000, 10_000, START).unwrap();
    let mut run = Restoration::begin(copy(&record), &current, &mut clock, 10_000, START, &codec, &protocol()).unwrap();
    let step = run.next(&mut clock, 10_000, START);
    assert_eq!(step, Ok(RestoreStep::Admit { group: 0, alias: 0, timeout_ms: 10_000 }));
    let mut taken = current.aliases[0].clone();
    taken.capabilities.admin = [77; 32];
    assert_eq!(run.admitted(taken, &mut clock, 10_000, START), Err(Error::RestoreChangedAuthority));
    let mut anew = current.aliases[0].clone();
    anew.create_path = "fresh-grant".into();
    assert_eq!(run.admitted(anew.clone(), &mut clock, 11_000, START), Ok(()));
    let step = run.next(&mut clock, 12_000, START);
    assert_eq!(step, Ok(RestoreStep::Admit { group: 0, alias: 1, timeout_ms: 8_000 }));
    assert_eq!(run.admitted(current.aliases[1].clone(), &mut clock, 12_000, START), Ok(()));
    assert_eq!(run.next(&mut clock, 12_000, START), Ok(RestoreStep::Done));
    assert_eq!(run.record.groups[0].provision.aliases, vec![anew, current.aliases[1].clone()]);
    assert_eq!(run.record.groups[0].origins, record.groups[0].origins);
    // An answer that comes when the role is over comes too late.
    let mut clock = RestoreClock::new(10_000, 10_000, START).unwrap();
    let mut run = Restoration::begin(copy(&record), &current, &mut clock, 10_000, START, &codec, &protocol()).unwrap();
    run.next(&mut clock, 10_000, START).unwrap();
    assert_eq!(run.admitted(current.aliases[0].clone(), &mut clock, 20_000, START), Err(Error::ExpiredDuringRestoration));
    let none = RelayProvision { aliases: vec![], ..current };
    let mut clock = RestoreClock::new(10_000, 10_000, START).unwrap();
    let refused = Restoration::begin(copy(&record), &none, &mut clock, 10_000, START, &codec, &protocol());
    assert_eq!(refused.err(), Some(Error::NoAdmissionRoute));
}

#[test]
fn an_expired_receive_address_is_retained_but_not_published() {
    let (mut record, _) = fixture();
    record.groups[0].deadline_ms = 15_000;
    record.groups[0].action_ms = 15_000;
    record.groups[0].receive_until_ms = 15_000;
    let take_up = |wall_ms: u64| {
        let mut st = owner(&record, wall_ms);
        st.routed = true;
        st.client_relay.aliases.clear();
        let clock = RestoreClock::new(record.captured_ms, wall_ms, START).unwrap();
        record.apply_retained(&mut st, clock, true, wall_ms, START, wall_ms / 1000, &vec![]).unwrap();
        st
    };
    let contacts: Vec<_> = record.groups[0].provision.aliases.iter().map(|a| a.contact).collect();
    assert!(contacts.iter().all(|c| c.expiry > 15));
    assert_eq!(take_up(14_999).public_aliases, contacts);
    let mut late = take_up(15_000);
    assert_eq!(late.client_relay.aliases, record.groups[0].provision.aliases);
    assert!(late.public_aliases.is_empty());
    late.refresh_public_info(15, &vec![]);
    assert!(late.public_aliases.is_empty());
}
