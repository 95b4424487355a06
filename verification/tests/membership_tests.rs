use artillery_core::member::{ArtilleryMember, ArtilleryMemberState, ArtilleryStateChange, NodeAddr};
use artillery_core::membership::ArtilleryMemberList;

fn addr(ip: u128, port: u16) -> NodeAddr {
    NodeAddr { ip, port, is_v6: false }
}

fn peer(key: u128, ip: u128, inc: u64, state: ArtilleryMemberState) -> ArtilleryMember {
    ArtilleryMember {
        host_key: key,
        remote_host: Some(addr(ip, 9000)),
        incarnation: inc,
        state,
        last_state_change: 0,
    }
}

fn change(m: ArtilleryMember) -> ArtilleryStateChange {
    ArtilleryStateChange { member: m }
}

fn fresh_list() -> ArtilleryMemberList {
    ArtilleryMemberList::new(ArtilleryMember::current(1, 0))
}

fn lookup(list: &ArtilleryMemberList, key: u128) -> ArtilleryMember {
    list.members.iter().find(|m| m.host_key == key).copied().unwrap()
}

#[test]
fn incarnation_never_decreases() {
    let mut list = fresh_list();
    let from = addr(0x0a000002, 1);
    list.apply_state_changes(&vec![change(peer(2, 2, 5, ArtilleryMemberState::Alive))], from, 10);
    assert_eq!(lookup(&list, 2).incarnation, 5);
    // a stale record with a lower incarnation is ignored
    list.apply_state_changes(&vec![change(peer(2, 2, 3, ArtilleryMemberState::Down))], from, 20);
    assert_eq!(lookup(&list, 2).incarnation, 5);
    assert!(matches!(lookup(&list, 2).state, ArtilleryMemberState::Alive));
    // a higher incarnation overwrites
    list.apply_state_changes(&vec![change(peer(2, 2, 9, ArtilleryMemberState::Suspect))], from, 30);
    assert_eq!(lookup(&list, 2).incarnation, 9);
    assert!(matches!(lookup(&list, 2).state, ArtilleryMemberState::Suspect));
}

#[test]
fn equal_incarnation_keeps_higher_precedence_either_order() {
    let from = addr(0x0a000002, 1);
    let alive = change(peer(2, 2, 4, ArtilleryMemberState::Alive));
    let down = change(peer(2, 2, 4, ArtilleryMemberState::Down));

    let mut first = fresh_list();
    first.apply_state_changes(&vec![change(peer(2, 2, 4, ArtilleryMemberState::Suspect))], from, 0);
    first.apply_state_changes(&vec![alive.clone(), down.clone()], from, 1);
    assert!(matches!(lookup(&first, 2).state, ArtilleryMemberState::Down));

    let mut second = fresh_list();
    second.apply_state_changes(&vec![change(peer(2, 2, 4, ArtilleryMemberState::Suspect))], from, 0);
    second.apply_state_changes(&vec![down, alive], from, 1);
    assert!(matches!(lookup(&second, 2).state, ArtilleryMemberState::Down));
}

#[test]
fn self_defense_bumps_incarnation_and_refutes() {
    let mut list = fresh_list();
    let from = addr(0x0a000002, 1);
    let accusation = ArtilleryMember {
        host_key: 1,
        remote_host: None,
        incarnation: 0,
        state: ArtilleryMemberState::Suspect,
        last_state_change: 0,
    };
    let before = list.current().incarnation;
    let (newly, changed, refute) = list.apply_state_changes(&vec![change(accusation)], from, 10);
    assert!(newly.is_empty());
    assert!(changed.is_empty());
    let refutation = refute.expect("self defense must yield a refutation");
    assert_eq!(refutation.host_key, 1);
    assert!(matches!(refutation.state, ArtilleryMemberState::Alive));
    assert!(refutation.incarnation > before);
    assert!(list.current().incarnation > before);
    assert!(matches!(list.current().state, ArtilleryMemberState::Alive));
}

#[test]
fn unknown_member_inherits_source_address() {
    let mut list = fresh_list();
    let from = addr(0x0a000002, 4242);
    let no_addr = ArtilleryMember {
        host_key: 9,
        remote_host: None,
        incarnation: 2,
        state: ArtilleryMemberState::Alive,
        last_state_change: 0,
    };
    let (newly, _, _) = list.apply_state_changes(&vec![change(no_addr)], from, 10);
    assert_eq!(newly.len(), 1);
    assert_eq!(newly[0].remote_host, Some(from));
    assert_eq!(lookup(&list, 9).remote_host, Some(from));
}

#[test]
fn timeout_never_turns_alive_into_down() {
    let mut list = fresh_list();
    let from = addr(0x0a000002, 1);
    list.apply_state_changes(&vec![change(peer(2, 2, 1, ArtilleryMemberState::Alive))], from, 0);
    let expired = vec![addr(2, 9000)];
    let (suspects, downs) = list.time_out_nodes(&expired, 10);
    assert_eq!(suspects.len(), 1);
    assert!(downs.is_empty());
    assert!(matches!(lookup(&list, 2).state, ArtilleryMemberState::Suspect));
    // only a second lapse confirms the failure
    let (suspects2, downs2) = list.time_out_nodes(&expired, 20);
    assert!(suspects2.is_empty());
    assert_eq!(downs2.len(), 1);
    assert!(matches!(lookup(&list, 2).state, ArtilleryMemberState::Down));
}

#[test]
fn mark_alive_promotes_only_suspects_without_bump() {
    let mut list = fresh_list();
    let from = addr(0x0a000002, 1);
    list.apply_state_changes(&vec![change(peer(2, 2, 6, ArtilleryMemberState::Suspect))], from, 0);
    let promoted = list.mark_node_alive(&addr(2, 9000), 5).expect("suspect must be promoted");
    assert!(matches!(promoted.state, ArtilleryMemberState::Alive));
    assert_eq!(promoted.incarnation, 6);
    // already alive: no transition is reported
    assert!(list.mark_node_alive(&addr(2, 9000), 6).is_none());
}

#[test]
fn leave_sets_left_and_bumps() {
    let mut list = fresh_list();
    let departed = list.leave(50);
    assert!(matches!(departed.state, ArtilleryMemberState::Left));
    assert_eq!(departed.incarnation, 1);
    assert!(matches!(list.current().state, ArtilleryMemberState::Left));
}

#[test]
fn random_selection_skips_self_and_unreachable() {
    let mut list = fresh_list();
    let from = addr(0x0a000002, 1);
    assert!(list.next_random_member(17).is_none());
    list.apply_state_changes(&vec![change(peer(2, 2, 1, ArtilleryMemberState::Down))], from, 0);
    assert!(list.next_random_member(17).is_none());
    list.apply_state_changes(&vec![change(peer(3, 3, 1, ArtilleryMemberState::Alive))], from, 0);
    let picked = list.next_random_member(17).unwrap();
    assert_eq!(picked.host_key, 3);
}

#[test]
fn indirect_ping_relays_exclude_target() {
    let mut list = fresh_list();
    let from = addr(0x0a000002, 1);
    list.apply_state_changes(
        &vec![
            change(peer(2, 2, 1, ArtilleryMemberState::Alive)),
            change(peer(3, 3, 1, ArtilleryMemberState::Alive)),
            change(peer(4, 4, 1, ArtilleryMemberState::Alive)),
        ],
        from,
        0,
    );
    let target = addr(2, 9000);
    let relays = list.hosts_for_indirect_ping(5, &target, 1);
    assert_eq!(relays.len(), 2);
    assert!(!relays.contains(&target));
    let capped = list.hosts_for_indirect_ping(1, &target, 1);
    assert_eq!(capped.len(), 1);
}

#[test]
fn available_nodes_hides_down_and_left() {
    let mut list = fresh_list();
    let from = addr(0x0a000002, 1);
    list.apply_state_changes(
        &vec![
            change(peer(2, 2, 1, ArtilleryMemberState::Alive)),
            change(peer(3, 3, 1, ArtilleryMemberState::Down)),
            change(peer(4, 4, 1, ArtilleryMemberState::Left)),
            change(peer(5, 5, 1, ArtilleryMemberState::Suspect)),
        ],
        from,
        0,
    );
    let avail = list.available_nodes();
    let keys: Vec<u128> = avail.iter().map(|m| m.host_key).collect();
    assert!(keys.contains(&1));
    assert!(keys.contains(&2));
    assert!(keys.contains(&5));
    assert!(!keys.contains(&3));
    assert!(!keys.contains(&4));
}
