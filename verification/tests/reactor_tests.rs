use artillery_core::codec::{build_message, decode_message, Request};
use artillery_core::config::ClusterConfig;
use artillery_core::errors::ArtilleryError;
use artillery_core::member::{ArtilleryMemberState, NodeAddr};
use artillery_core::state::{ArtilleryClusterRequest, ArtilleryMemberEvent, ArtilleryState};

fn addr(ip: u128, port: u16) -> NodeAddr {
    NodeAddr { ip, port, is_v6: false }
}

fn config(listen: NodeAddr) -> ClusterConfig {
    ClusterConfig {
        listen_addr: listen,
        cluster_key: b"artillery".to_vec(),
        ping_interval: 1000,
        ping_timeout: 500,
        ping_request_host_count: 3,
        network_mtu: 1400,
    }
}

#[test]
fn construction_rejects_zero_intervals() {
    let mut bad = config(addr(0x7f000001, 7001));
    bad.ping_interval = 0;
    assert!(matches!(ArtilleryState::new(1, bad, 0), Err(ArtilleryError::Config)));
}

#[test]
fn digest_is_seeded_with_self_alive() {
    let state = ArtilleryState::new(1, config(addr(0x7f000001, 7001)), 0).unwrap();
    assert_eq!(state.state_changes.len(), 1);
    assert_eq!(state.state_changes[0].member.host_key, 1);
    assert!(matches!(state.state_changes[0].member.state, ArtilleryMemberState::Alive));
}

#[test]
fn two_node_join_handshake() {
    let addr_a = addr(0x7f000001, 7001);
    let addr_b = addr(0x7f000001, 7002);
    let mut a = ArtilleryState::new(1, config(addr_a), 0).unwrap();
    let mut b = ArtilleryState::new(2, config(addr_b), 0).unwrap();

    b.process_internal_request(&ArtilleryClusterRequest::AddSeed(addr_a), 0, 0).unwrap();
    let tick = b.timer_tick(10, 0).unwrap();
    assert_eq!(tick.datagrams.len(), 1, "the seed must be probed");
    assert_eq!(tick.datagrams[0].target, addr_a);
    assert_eq!(b.pending_responses.len(), 1, "a direct Ping records a pending response");

    // A receives B's Ping
    let ping = decode_message(&tick.datagrams[0].payload).unwrap();
    assert!(matches!(ping.request, Request::Ping));
    let out_a = a
        .process_internal_request(&ArtilleryClusterRequest::Respond(addr_b, ping), 20, 0)
        .unwrap();
    assert!(out_a
        .events
        .iter()
        .any(|(_, e)| matches!(e, ArtilleryMemberEvent::MemberJoined(m) if m.host_key == 2)));
    assert_eq!(out_a.datagrams.len(), 1, "a Ping demands an Ack");
    assert_eq!(out_a.datagrams[0].target, addr_b);

    // B receives A's Ack
    let ack = decode_message(&out_a.datagrams[0].payload).unwrap();
    assert!(matches!(ack.request, Request::Ack));
    let out_b = b
        .process_internal_request(&ArtilleryClusterRequest::Respond(addr_a, ack), 30, 0)
        .unwrap();
    assert!(out_b
        .events
        .iter()
        .any(|(_, e)| matches!(e, ArtilleryMemberEvent::MemberJoined(m) if m.host_key == 1)));
    assert_eq!(b.pending_responses.len(), 0, "the Ack clears the pending response");

    let a_sees_b = a.members.available_nodes().iter().any(|m| {
        m.host_key == 2 && matches!(m.state, ArtilleryMemberState::Alive)
    });
    let b_sees_a = b.members.available_nodes().iter().any(|m| {
        m.host_key == 1 && matches!(m.state, ArtilleryMemberState::Alive)
    });
    assert!(a_sees_b && b_sees_a, "both tables mark the other Alive");
}

#[test]
fn mismatched_cluster_key_is_dropped_silently() {
    let addr_a = addr(0x7f000001, 7001);
    let addr_x = addr(0x7f000009, 7009);
    let mut a = ArtilleryState::new(1, config(addr_a), 0).unwrap();
    let stranger_key = b"other-cluster".to_vec();
    let ping = build_message(99, &stranger_key, Request::Ping, &Vec::new(), 1400);
    let out = a
        .process_internal_request(&ArtilleryClusterRequest::Respond(addr_x, ping), 10, 0)
        .unwrap();
    assert!(out.events.is_empty(), "no event is published");
    assert!(out.datagrams.is_empty(), "no reply is sent");
    assert_eq!(a.members.members.len(), 1, "the stranger is not added to the table");
}

#[test]
fn ack_prunes_pending_and_digest() {
    let addr_a = addr(0x7f000001, 7001);
    let addr_b = addr(0x7f000001, 7002);
    let mut a = ArtilleryState::new(1, config(addr_a), 0).unwrap();
    a.process_internal_request(&ArtilleryClusterRequest::AddSeed(addr_b), 0, 0).unwrap();
    let tick = a.timer_tick(10, 0).unwrap();
    assert_eq!(a.pending_responses.len(), 1);
    assert!(!a.state_changes.is_empty());
    let sent = decode_message(&tick.datagrams[0].payload).unwrap();
    assert!(!sent.state_changes.is_empty(), "the self change rides on the probe");

    let ack = build_message(2, &b"artillery".to_vec(), Request::Ack, &Vec::new(), 1400);
    a.process_internal_request(&ArtilleryClusterRequest::Respond(addr_b, ack), 20, 0).unwrap();
    assert!(a.pending_responses.is_empty(), "no pending entry for the acked address remains");
    assert!(
        !a.state_changes.iter().any(|c| c.member.host_key == 1),
        "acknowledged digest entries are no longer re-disseminated"
    );
}

#[test]
fn suspicion_then_confirmation_on_timeouts() {
    let addr_a = addr(0x7f000001, 7001);
    let addr_b = addr(0x7f000001, 7002);
    let mut a = ArtilleryState::new(1, config(addr_a), 0).unwrap();
    // B joins A's table
    let hello = build_message(2, &b"artillery".to_vec(), Request::Ping, &Vec::new(), 1400);
    a.process_internal_request(&ArtilleryClusterRequest::Respond(addr_b, hello), 0, 0).unwrap();

    // A probes B; B never answers; the deadline (ping_timeout = 500) lapses
    let t1 = a.timer_tick(1000, 0).unwrap();
    assert!(t1.datagrams.iter().any(|d| d.target == addr_b));
    assert_eq!(a.pending_responses.len(), 1);
    let t2 = a.timer_tick(2000, 0).unwrap();
    assert!(t2.events.iter().any(|(_, e)| matches!(
        e,
        ArtilleryMemberEvent::MemberSuspectedDown(m) if m.host_key == 2
    )));
    assert!(
        !t2.events.iter().any(|(_, e)| matches!(e, ArtilleryMemberEvent::MemberWentDown(_))),
        "Alive never lapses straight to Down"
    );
    // the suspect is probed again at 2000; the second lapse confirms the failure
    assert_eq!(a.pending_responses.len(), 1);
    let t3 = a.timer_tick(4000, 0).unwrap();
    assert!(t3.events.iter().any(|(_, e)| matches!(
        e,
        ArtilleryMemberEvent::MemberWentDown(m) if m.host_key == 2
    )));
    assert!(
        !a.members.available_nodes().iter().any(|m| m.host_key == 2),
        "a Down member is no longer available"
    );
}

#[test]
fn leave_disseminates_left_state() {
    let addr_a = addr(0x7f000001, 7001);
    let addr_b = addr(0x7f000001, 7002);
    let mut a = ArtilleryState::new(1, config(addr_a), 0).unwrap();
    let hello = build_message(2, &b"artillery".to_vec(), Request::Ping, &Vec::new(), 1400);
    a.process_internal_request(&ArtilleryClusterRequest::Respond(addr_b, hello), 0, 0).unwrap();

    let out = a.process_internal_request(&ArtilleryClusterRequest::LeaveCluster, 10, 0).unwrap();
    assert!(out.datagrams.is_empty(), "the Left status disseminates on the next scheduled probe");
    let own = a
        .state_changes
        .iter()
        .find(|c| c.member.host_key == 1)
        .expect("the departure must be enqueued");
    assert!(matches!(own.member.state, ArtilleryMemberState::Left));
    assert_eq!(own.member.incarnation, 1);
    assert!(
        !a.members.available_nodes().iter().any(|m| m.host_key == 1),
        "the departed member is absent from available_nodes"
    );

    // the next tick carries the Left change on the wire
    let tick = a.timer_tick(1000, 0).unwrap();
    let probe = tick.datagrams.iter().find(|d| d.target == addr_b).expect("b is still probed");
    let msg = decode_message(&probe.payload).unwrap();
    assert!(msg.state_changes.iter().any(|c| {
        c.member.host_key == 1 && matches!(c.member.state, ArtilleryMemberState::Left)
    }));
}

#[test]
fn ping_request_relays_and_ack_host_rescues() {
    let addr_a = addr(0x7f000001, 7001);
    let addr_b = addr(0x7f000001, 7002);
    let addr_c = addr(0x7f000001, 7003);
    let mut a = ArtilleryState::new(1, config(addr_a), 0).unwrap();
    // C asks A to probe B on its behalf
    let pr = build_message(
        3,
        &b"artillery".to_vec(),
        Request::PingRequest(addr_b),
        &Vec::new(),
        1400,
    );
    let out = a
        .process_internal_request(&ArtilleryClusterRequest::Respond(addr_c, pr), 0, 0)
        .unwrap();
    assert!(out.datagrams.iter().any(|d| {
        d.target == addr_b
            && matches!(decode_message(&d.payload).unwrap().request, Request::Ping)
    }));
    assert_eq!(a.wait_list.len(), 1);
    assert_eq!(a.wait_list[0].target, addr_b);
    assert_eq!(a.wait_list[0].relays, vec![addr_c]);
}

#[test]
fn indirect_ack_rescues_a_suspect() {
    let addr_a = addr(0x7f000001, 7001);
    let addr_b = addr(0x7f000001, 7002);
    let addr_c = addr(0x7f000001, 7003);
    let mut a = ArtilleryState::new(1, config(addr_a), 0).unwrap();
    let key = b"artillery".to_vec();
    let hello_b = build_message(2, &key, Request::Ping, &Vec::new(), 1400);
    a.process_internal_request(&ArtilleryClusterRequest::Respond(addr_b, hello_b), 0, 0).unwrap();
    let hello_c = build_message(3, &key, Request::Ping, &Vec::new(), 1400);
    a.process_internal_request(&ArtilleryClusterRequest::Respond(addr_c, hello_c), 0, 0).unwrap();

    // A probes B directly (rand picks B) and the Ack never comes
    let t1 = a.timer_tick(1000, 0).unwrap();
    assert!(t1.datagrams.iter().any(|d| d.target == addr_b));
    let t2 = a.timer_tick(2000, 0).unwrap();
    assert!(t2.events.iter().any(|(_, e)| matches!(
        e,
        ArtilleryMemberEvent::MemberSuspectedDown(m) if m.host_key == 2
    )));
    // the sweep asks the remaining alive peer to probe B indirectly
    assert!(t2.datagrams.iter().any(|d| {
        d.target == addr_c
            && matches!(
                decode_message(&d.payload).unwrap().request,
                Request::PingRequest(dest) if dest == addr_b
            )
    }));

    // C vouches for B: AckHost arrives before any confirmation
    let b_snapshot = artillery_core::member::ArtilleryMember {
        host_key: 2,
        remote_host: Some(addr_b),
        incarnation: 0,
        state: artillery_core::member::ArtilleryMemberState::Alive,
        last_state_change: 0,
    };
    let ack_host = build_message(3, &key, Request::AckHost(b_snapshot), &Vec::new(), 1400);
    let out = a
        .process_internal_request(&ArtilleryClusterRequest::Respond(addr_c, ack_host), 2100, 0)
        .unwrap();
    assert!(out.events.iter().any(|(_, e)| matches!(
        e,
        ArtilleryMemberEvent::MemberWentUp(m) if m.host_key == 2
    )));
    assert!(!out.events.iter().any(|(_, e)| matches!(e, ArtilleryMemberEvent::MemberWentDown(_))));
    assert!(a.members.available_nodes().iter().any(|m| {
        m.host_key == 2 && matches!(m.state, ArtilleryMemberState::Alive)
    }));
    assert!(a.pending_responses.iter().all(|p| p.target != addr_b));
}

#[test]
fn every_seed_is_probed_each_tick() {
    let addr_a = addr(0x7f000001, 7001);
    let seed1 = addr(0x7f000001, 7002);
    let seed2 = addr(0x7f000001, 7003);
    let mut a = ArtilleryState::new(1, config(addr_a), 0).unwrap();
    a.process_internal_request(&ArtilleryClusterRequest::AddSeed(seed1), 0, 0).unwrap();
    a.process_internal_request(&ArtilleryClusterRequest::AddSeed(seed2), 0, 0).unwrap();
    let tick = a.timer_tick(10, 0).unwrap();
    assert_eq!(tick.datagrams.len(), 2, "one Ping per unconfirmed seed");
    assert_eq!(tick.datagrams[0].target, seed1);
    assert_eq!(tick.datagrams[1].target, seed2);
    for d in &tick.datagrams {
        assert!(matches!(decode_message(&d.payload).unwrap().request, Request::Ping));
    }
    assert_eq!(a.pending_responses.len(), 2, "each direct Ping records a pending response");
}

#[test]
fn exit_command_stops_the_reactor() {
    let mut a = ArtilleryState::new(1, config(addr(0x7f000001, 7001)), 0).unwrap();
    let out = a.process_internal_request(&ArtilleryClusterRequest::Exit, 0, 0).unwrap();
    assert!(out.exit);
    assert!(out.datagrams.is_empty() && out.events.is_empty());
}

#[test]
fn oversized_configuration_is_a_fatal_precondition() {
    let mut cfg = config(addr(0x7f000001, 7001));
    cfg.network_mtu = 8;
    let mut a = ArtilleryState::new(1, cfg, 0).unwrap();
    a.process_internal_request(&ArtilleryClusterRequest::AddSeed(addr(0x7f000001, 7002)), 0, 0)
        .unwrap();
    assert!(matches!(a.timer_tick(1000, 0), Err(ArtilleryError::Precondition)));
}
