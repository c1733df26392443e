use gcoms_node::error::Error;
use gcoms_node::model::{AliasContact, ChannelRoute, RelayProvision, RelayTarget, SocketAddr};
use gcoms_node::node_state::{ChannelState, MemberKey, NodeState, Presence, PresenceMode, Reachability};
use gcoms_node::presence::{
    apply_channel_presence, apply_direct_presence, clear_channel_presence, expire_channel_presence, expire_direct_presence, gather_targets,
    observe_channel_reachability, observe_direct_reachability, plan_channel_presence, plan_direct_presence, presence_outcome,
    rollback_channel_presence, stage_channel_presence, withdraw_channel_presence, withdraw_direct_presence, PresenceEvent,
};
use gcoms_node::profile::AliasLifecycleConfig;
use gcoms_node::startup::fresh_state;
use gcoms_node::table::Table;
use gcoms_node::time::{Duration, Instant};

const NOW: Instant = Instant { nanos: 5_000_000_000_000 };

fn presence() -> Presence {
    Presence {
        direct: Table::new(),
        direct_counters: Table::new(),
        direct_opt_in: vec![],
        channel: Table::new(),
        channel_counters: Table::new(),
        channel_opt_in: vec![],
    }
}

fn member(id: [u8; 32]) -> MemberKey {
    MemberKey { channel: "ops".into(), member_id: id }
}

fn peer_reachability(event: &Option<PresenceEvent>) -> Option<Reachability> {
    match event {
        Some(PresenceEvent::Peer { reachability, .. }) => Some(*reachability),
        _ => None,
    }
}

fn member_reachability(event: &Option<PresenceEvent>) -> Option<Reachability> {
    match event {
        Some(PresenceEvent::Member { reachability, .. }) => Some(*reachability),
        _ => None,
    }
}

#[test]
fn direct_presence_rejects_stale_counters_and_expires_to_unknown() {
    let mut node = presence();
    let peer = vec![0x91; 32];
    node.direct_opt_in.push(peer.clone());

    let (applied, event) = apply_direct_presence(&mut node, &peer, 7, PresenceMode::Away, 60, NOW);
    assert!(applied);
    assert_eq!(peer_reachability(&event), Some(Reachability::Away));
    let (applied, event) = apply_direct_presence(&mut node, &peer, 6, PresenceMode::RecentlyReachable, 60, NOW);
    assert!(!applied);
    assert_eq!(node.direct.get(&peer).unwrap().reachability, Reachability::Away);
    assert!(event.is_none());

    node.direct.entries[0].1.expires = NOW.checked_sub(Duration::from_millis(1)).unwrap();
    let events = expire_direct_presence(&mut node, NOW);
    assert!(!node.direct.contains_key(&peer));
    assert!(matches!(events.as_slice(), [PresenceEvent::Peer { reachability: Reachability::Unknown, .. }]));
}

#[test]
fn channel_presence_rejects_stale_leases_and_expires_to_unknown() {
    let mut node = presence();
    let key = member([0x92; 32]);
    node.channel_opt_in.push("ops".into());

    for counter in 1..=65 {
        assert!(apply_channel_presence(&mut node, &key, counter, PresenceMode::Away, 60, NOW).0);
    }
    assert_eq!(node.channel_counters.get(&key), Some(&65));
    assert!(!apply_channel_presence(&mut node, &key, 65, PresenceMode::RecentlyReachable, 60, NOW).0);
    assert_eq!(node.channel.get(&key).unwrap().reachability, Reachability::Away);

    assert!(apply_channel_presence(&mut node, &key, 66, PresenceMode::Invisible, 0, NOW).0);
    assert!(!node.channel.contains_key(&key));
    assert!(!apply_channel_presence(&mut node, &key, 64, PresenceMode::Away, 60, NOW).0);
    assert!(!node.channel.contains_key(&key));

    assert!(apply_channel_presence(&mut node, &key, 67, PresenceMode::Away, 60, NOW).0);

    node.channel.entries[0].1.expires = NOW.checked_sub(Duration::from_millis(1)).unwrap();
    let events = expire_channel_presence(&mut node, NOW);
    assert!(!node.channel.contains_key(&key));
    let expired = events.iter().any(|event| matches!(event, PresenceEvent::Member { reachability: Reachability::Unknown, .. }));
    assert!(expired);
}

#[test]
fn channel_member_revocation_clears_presence() {
    let mut node = presence();
    let key = member([0x93; 32]);
    node.channel_opt_in.push("ops".into());
    assert!(apply_channel_presence(&mut node, &key, 1, PresenceMode::Away, 60, NOW).0);

    let event = withdraw_channel_presence(&mut node, &key);
    node.channel_counters.remove(&key);

    assert!(!node.channel.contains_key(&key));
    assert!(!node.channel_counters.contains_key(&key));
    assert_eq!(member_reachability(&event), Some(Reachability::Unknown));
}

#[test]
fn only_news_is_made_known() {
    let mut node = presence();
    let peer = vec![1; 32];
    let first = observe_direct_reachability(&mut node, &peer, Reachability::RecentlyReachable, 10, NOW);
    assert_eq!(peer_reachability(&first), Some(Reachability::RecentlyReachable));
    let later = NOW.checked_add(Duration::from_secs(1)).unwrap();
    assert!(observe_direct_reachability(&mut node, &peer, Reachability::RecentlyReachable, 10, later).is_none());
    // The lease moved although nothing was said.
    let until = node.direct.get(&peer).unwrap().expires;
    assert_eq!(until, later.checked_add(Duration::from_secs(10)).unwrap());
    assert_eq!(peer_reachability(&withdraw_direct_presence(&mut node, &peer)), Some(Reachability::Unknown));
    assert!(withdraw_direct_presence(&mut node, &peer).is_none());

    let key = member([2; 32]);
    let first = observe_channel_reachability(&mut node, &key, Reachability::Away, 10, NOW);
    assert_eq!(member_reachability(&first), Some(Reachability::Away));
    assert!(observe_channel_reachability(&mut node, &key, Reachability::Away, 10, NOW).is_none());
}

#[test]
fn a_lease_bounds_belief_to_its_last_moment() {
    let mut node = presence();
    let peer = vec![1; 32];
    // Without consent the word is counted and not believed.
    assert!(apply_direct_presence(&mut node, &peer, 1, PresenceMode::RecentlyReachable, 2, NOW).0);
    assert!(node.direct.entries.is_empty());
    node.direct_opt_in.push(peer.clone());
    apply_direct_presence(&mut node, &peer, 2, PresenceMode::RecentlyReachable, 2, NOW);
    let eve = Instant { nanos: NOW.nanos + 1_999_999_999 };
    assert!(expire_direct_presence(&mut node, eve).is_empty());
    let end = Instant { nanos: NOW.nanos + 2_000_000_000 };
    assert_eq!(expire_direct_presence(&mut node, end).len(), 1);
}

#[test]
fn clearing_a_channel_leaves_the_others() {
    let mut node = presence();
    let elsewhere = MemberKey { channel: "elsewhere".into(), member_id: [1; 32] };
    observe_channel_reachability(&mut node, &member([1; 32]), Reachability::Away, 10, NOW);
    observe_channel_reachability(&mut node, &elsewhere, Reachability::Away, 10, NOW);
    assert_eq!(clear_channel_presence(&mut node, &"ops".into()).len(), 1);
    assert!(node.channel.contains_key(&elsewhere));
    assert!(!node.channel.contains_key(&member([1; 32])));
}

fn contact(byte: u8) -> AliasContact {
    AliasContact {
        target: RelayTarget { address: SocketAddr::v4([192, 0, 2, byte], 443), relay_service_id: [byte; 32] },
        queue_id: [byte; 32],
        epoch: 1,
        push_cap: [byte; 32],
        expiry: 100,
    }
}

fn route(byte: u8) -> ChannelRoute {
    ChannelRoute { pseudonym: [byte; 32], direct_public: [byte; 32], data: contact(byte), control: contact(byte) }
}

#[test]
fn the_roster_is_asked_once_each_in_some_order() {
    let mut directory: Table<String, ChannelRoute> = Table::new();
    for byte in 1..=40u8 {
        directory.insert(format!("member-{byte}"), route(byte));
    }
    // One member is a target already, and the node does not ask itself.
    let mut orders: Vec<Vec<u8>> = vec![];
    for _ in 0..8 {
        let targets = gather_targets(vec![route(7)], &directory, &[3; 32]);
        assert_eq!(targets.len(), 39);
        assert_eq!(targets[0].pseudonym, [7; 32]);
        let order: Vec<u8> = targets.iter().map(|t| t.pseudonym[0]).collect();
        let mut all = order.clone();
        all.sort();
        assert_eq!(all, (1..=40).filter(|b| *b != 3).collect::<Vec<u8>>());
        orders.push(order);
    }
    // Eight draws of a fair order are not all the order of the directory.
    assert!(orders.iter().any(|order| order[1..] != (1..=40).filter(|b| *b != 3 && *b != 7).collect::<Vec<u8>>()[..]));
}

#[test]
fn no_more_than_a_round_of_targets_is_asked() {
    let mut directory: Table<String, ChannelRoute> = Table::new();
    for byte in 1..=100u8 {
        directory.insert(format!("member-{byte}"), route(byte));
    }
    assert_eq!(gather_targets(vec![], &directory, &[0; 32]).len(), 64);
}

fn channel(blob: Vec<u8>) -> ChannelState {
    ChannelState {
        public: false,
        owner: true,
        blob,
        own_route: gcoms_node::model::OwnedChannelRoute { public: route(1), direct_secret: [1; 32], aliases: vec![] },
        previous_own_route: None,
        directory: Table::new(),
        message_outbox: Table::new(),
        membership_outbox: None,
        pending_control: vec![],
        admission_cache: Table::new(),
        admission_cache_order: vec![],
        completed_removals: vec![],
        commit_ack_cache: Table::new(),
        commit_ack_order: vec![],
        unrouted_ack_journal: Table::new(),
        unrouted_ack_order: vec![],
        invites: Table::new(),
        invite_order: vec![],
    }
}

fn node() -> NodeState {
    let relay = RelayProvision { aliases: vec![], frwd_path: "forward".into(), hop_key: [1; 32] };
    fresh_state(relay, AliasLifecycleConfig::default(), None, vec![], false, vec![], 1_000, NOW).unwrap()
}

#[test]
fn words_need_consent_a_number_and_a_lease() {
    let mut st = node();
    let ops = "ops".to_owned();
    assert_eq!(plan_channel_presence(&st, &ops, PresenceMode::Away, true), Err(Error::ChannelPresenceNotOptedIn));
    st.channels.insert("ops".into(), channel(vec![1]));
    assert_eq!(plan_channel_presence(&st, &ops, PresenceMode::Invisible, true), Ok(1));
    st.presence.channel_opt_in.push("ops".into());
    assert_eq!(plan_channel_presence(&st, &ops, PresenceMode::Away, false), Err(Error::InvalidChannelPresenceLease));
    assert_eq!(plan_channel_presence(&st, &ops, PresenceMode::Away, true), Ok(1));
    st.next_direct_sequence = u64::MAX;
    assert_eq!(plan_channel_presence(&st, &ops, PresenceMode::Away, true), Err(Error::PresenceSequenceExhausted));
    let peer = vec![5; 32];
    assert_eq!(plan_direct_presence(&st, &peer, PresenceMode::Away), Err(Error::DirectPresenceNotOptedIn));
    assert_eq!(plan_direct_presence(&st, &peer, PresenceMode::Invisible), Ok(()));
    st.presence.direct_opt_in.push(peer.clone());
    assert_eq!(plan_direct_presence(&st, &peer, PresenceMode::Away), Ok(()));
}

#[test]
fn a_rollback_undoes_a_staged_word() {
    let mut st = node();
    let ops = "ops".to_owned();
    st.channels.insert("ops".into(), channel(vec![1, 2, 3]));
    let checkpoint = stage_channel_presence(&mut st, &ops, vec![9]).unwrap();
    assert_eq!(st.next_direct_sequence, 2);
    assert_eq!(st.channels.get(&ops).unwrap().blob, vec![9]);
    assert_eq!(rollback_channel_presence(&mut st, &ops, checkpoint), Ok(()));
    assert_eq!(st.next_direct_sequence, 1);
    assert_eq!(st.channels.get(&ops).unwrap().blob, vec![1, 2, 3]);
    assert!(matches!(stage_channel_presence(&mut st, &"none".into(), vec![9]), Err(Error::NoChannel)));
}

#[test]
fn failures_are_counted() {
    assert_eq!(presence_outcome(0), Ok(()));
    assert_eq!(presence_outcome(3), Err(3));
}
