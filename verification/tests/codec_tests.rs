use artillery_core::codec::{build_message, decode_message, encode_message, ArtilleryMessage, Request};
use artillery_core::errors::ArtilleryError;
use artillery_core::member::{ArtilleryMember, ArtilleryMemberState, ArtilleryStateChange, NodeAddr};

fn addr(ip: u128, port: u16) -> NodeAddr {
    NodeAddr { ip, port, is_v6: false }
}

fn member(key: u128, ip: u128, inc: u64, state: ArtilleryMemberState) -> ArtilleryMember {
    ArtilleryMember {
        host_key: key,
        remote_host: Some(addr(ip, 9000)),
        incarnation: inc,
        state,
        last_state_change: 42,
    }
}

#[test]
fn round_trip_ping_with_digest() {
    let changes = vec![
        ArtilleryStateChange { member: member(1, 0x7f000001, 3, ArtilleryMemberState::Alive) },
        ArtilleryStateChange { member: member(2, 0x7f000002, 7, ArtilleryMemberState::Suspect) },
    ];
    let msg = ArtilleryMessage {
        sender: 0xdeadbeef,
        cluster_key: b"my-cluster".to_vec(),
        request: Request::Ping,
        state_changes: changes,
    };
    let encoded = encode_message(&msg);
    let decoded = decode_message(&encoded).expect("round trip must succeed");
    assert_eq!(decoded.sender, 0xdeadbeef);
    assert_eq!(decoded.cluster_key, b"my-cluster".to_vec());
    assert!(matches!(decoded.request, Request::Ping));
    assert_eq!(decoded.state_changes.len(), 2);
    assert_eq!(decoded.state_changes[0].member.host_key, 1);
    assert_eq!(decoded.state_changes[0].member.incarnation, 3);
    assert_eq!(decoded.state_changes[1].member.host_key, 2);
    assert!(matches!(decoded.state_changes[1].member.state, ArtilleryMemberState::Suspect));
    assert_eq!(decoded.state_changes[1].member.last_state_change, 42);
}

#[test]
fn round_trip_ack_host_v6_and_missing_addr() {
    let carried = ArtilleryMember {
        host_key: u128::MAX,
        remote_host: Some(NodeAddr { ip: u128::MAX - 5, port: 65535, is_v6: true }),
        incarnation: u64::MAX,
        state: ArtilleryMemberState::Left,
        last_state_change: u64::MAX,
    };
    let selfless = ArtilleryMember {
        host_key: 0,
        remote_host: None,
        incarnation: 0,
        state: ArtilleryMemberState::Down,
        last_state_change: 0,
    };
    let msg = ArtilleryMessage {
        sender: 0,
        cluster_key: Vec::new(),
        request: Request::AckHost(carried),
        state_changes: vec![ArtilleryStateChange { member: selfless }],
    };
    let encoded = encode_message(&msg);
    let decoded = decode_message(&encoded).unwrap();
    match decoded.request {
        Request::AckHost(m) => {
            assert_eq!(m.host_key, u128::MAX);
            let a = m.remote_host.unwrap();
            assert_eq!(a.ip, u128::MAX - 5);
            assert_eq!(a.port, 65535);
            assert!(a.is_v6);
            assert_eq!(m.incarnation, u64::MAX);
            assert!(matches!(m.state, ArtilleryMemberState::Left));
        }
        _ => panic!("wrong request variant"),
    }
    assert!(decoded.state_changes[0].member.remote_host.is_none());
}

#[test]
fn round_trip_ping_request() {
    let msg = ArtilleryMessage {
        sender: 7,
        cluster_key: b"k".to_vec(),
        request: Request::PingRequest(addr(0x0a000001, 7777)),
        state_changes: Vec::new(),
    };
    let encoded = encode_message(&msg);
    let decoded = decode_message(&encoded).unwrap();
    match decoded.request {
        Request::PingRequest(a) => {
            assert_eq!(a.ip, 0x0a000001);
            assert_eq!(a.port, 7777);
            assert!(!a.is_v6);
        }
        _ => panic!("wrong request variant"),
    }
}

#[test]
fn decode_rejects_garbage() {
    let garbage = b"hello, world".to_vec();
    assert!(matches!(decode_message(&garbage), Err(ArtilleryError::Decode)));
}

#[test]
fn decode_rejects_truncated_and_padded() {
    let msg = ArtilleryMessage {
        sender: 9,
        cluster_key: b"k".to_vec(),
        request: Request::Ack,
        state_changes: Vec::new(),
    };
    let encoded = encode_message(&msg);
    let mut truncated = encoded.clone();
    truncated.pop();
    assert!(matches!(decode_message(&truncated), Err(ArtilleryError::Decode)));
    let mut padded = encoded.clone();
    padded.push(b'0');
    assert!(matches!(decode_message(&padded), Err(ArtilleryError::Decode)));
}

#[test]
fn decode_rejects_empty() {
    assert!(matches!(decode_message(&Vec::new()), Err(ArtilleryError::Decode)));
}

#[test]
fn mtu_truncates_digest_under_bound() {
    let mut changes = Vec::new();
    for i in 0..200u128 {
        changes.push(ArtilleryStateChange {
            member: member(i, 0x7f000001 + i, 1, ArtilleryMemberState::Alive),
        });
    }
    let key = b"cluster".to_vec();
    let msg = build_message(55, &key, Request::Ping, &changes, 1400);
    let encoded = encode_message(&msg);
    assert!(encoded.len() < 1400, "datagram must stay under the MTU");
    assert!(msg.state_changes.len() < 200, "the digest must have been truncated");
    assert!(msg.state_changes.len() > 0, "some prefix must fit under 1400 bytes");
    // the prefix rule: what rides along is exactly the head of the digest
    for (i, c) in msg.state_changes.iter().enumerate() {
        assert_eq!(c.member.host_key, changes[i].member.host_key);
    }
}

#[test]
fn oversized_even_when_empty_returns_full_record() {
    let changes = vec![ArtilleryStateChange {
        member: member(1, 0x7f000001, 1, ArtilleryMemberState::Alive),
    }];
    let key = b"cluster".to_vec();
    let msg = build_message(55, &key, Request::Ping, &changes, 10);
    assert_eq!(msg.state_changes.len(), 1, "caller's invariant failed: full record comes back");
    let encoded = encode_message(&msg);
    assert!(encoded.len() >= 10);
}
