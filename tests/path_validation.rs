use quiche::address::{token_eq, AddressRegistry, IpAddress, SocketAddress};
use quiche::error::Error;
use quiche::frame::{Frame, PATH_CHALLENGE_TYPE, PATH_RESPONSE_TYPE};
use quiche::manager::PathManagement;
use quiche::path::{PathEntries, PathState};
use quiche::scheduler::ValidationScheduler;
use quiche::tls::map_result_ptr;

fn v4(a: u32, port: u16) -> SocketAddress {
    SocketAddress { ip: IpAddress::V4(a), port }
}

fn p1() -> SocketAddress {
    v4(0x0a00_0001, 4433)
}

fn l1() -> SocketAddress {
    v4(0xc0a8_0001, 5000)
}

fn l2() -> SocketAddress {
    v4(0xc0a8_0002, 5000)
}

const T1: [u8; 8] = [1, 2, 3, 4, 5, 6, 7, 8];
const T2: [u8; 8] = [9, 9, 9, 9, 9, 9, 9, 9];

fn state(m: &PathManagement, id: u64) -> PathState {
    m.path(id).unwrap().state
}

// Fresh manager, one local address, then one peer address.
fn scenario_a() -> PathManagement {
    let mut m = PathManagement::new();
    assert_eq!(m.add_local_addr(l1()), Ok(vec![]));
    assert_eq!(m.add_peer_addr(p1()), Ok(vec![0]));
    m
}

fn scenario_b() -> PathManagement {
    let mut m = scenario_a();
    assert_eq!(m.add_local_addr(l2()), Ok(vec![1]));
    m
}

fn scenario_d() -> PathManagement {
    let mut m = scenario_b();
    assert_eq!(m.issue_challenge(0, T1), Ok(()));
    assert_eq!(m.activate_path(p1(), l1(), Some(T1)), Ok(0));
    m
}

#[test]
fn scenario_a_first_path() {
    let m = scenario_a();
    let p = m.path(0).unwrap();
    assert_eq!(p.id, 0);
    assert_eq!(p.peer_addr, p1());
    assert_eq!(p.local_addr, l1());
    assert_eq!(p.state, PathState::Validating);
    assert!(!p.verified_peer_addr);
    assert_eq!(p.challenge, None);
    assert!(p.responses.is_empty());
    assert_eq!(m.path_count(), 1);
}

#[test]
fn scenario_b_second_local_address() {
    let m = scenario_b();
    let p = m.path(1).unwrap();
    assert_eq!(p.id, 1);
    assert_eq!(p.peer_addr, p1());
    assert_eq!(p.local_addr, l2());
    assert_eq!(p.state, PathState::Validating);
    assert_eq!(m.path_count(), 2);
}

#[test]
fn scenario_c_duplicate_peer() {
    let mut m = scenario_b();
    assert_eq!(m.add_peer_addr(p1()), Err(Error::DuplicateAddress));
    assert_eq!(m.path_count(), 2);
    assert_eq!(m.peer_addrs().len(), 1);
}

#[test]
fn scenario_d_activate_once() {
    let mut m = scenario_d();
    assert_eq!(state(&m, 0), PathState::Active);
    assert_eq!(m.path(0).unwrap().challenge, None);
    assert_eq!(m.activate_path(p1(), l1(), Some(T1)), Err(Error::ChallengeMismatch));
    assert_eq!(state(&m, 0), PathState::Active);
    assert_eq!(state(&m, 1), PathState::Validating);
}

#[test]
fn scenario_e_path_response() {
    let mut m = scenario_d();
    assert_eq!(m.receive_path_challenge(p1(), l1(), T2), Ok(0));
    assert_eq!(m.path(0).unwrap().responses, vec![T2]);
    match m.get_path_response_frame() {
        Ok(Frame::PathResponse { data }) => assert_eq!(data, T2),
        other => panic!("unexpected {:?}", other),
    }
    assert!(m.path(0).unwrap().responses.is_empty());
    assert!(matches!(m.get_path_response_frame(), Err(Error::Done)));
}

#[test]
fn ids_count_up_from_zero_across_both_operations() {
    let mut m = PathManagement::new();
    assert_eq!(m.add_peer_addr(v4(1, 1)), Ok(vec![]));
    assert_eq!(m.add_local_addr(v4(2, 2)), Ok(vec![0]));
    assert_eq!(m.add_peer_addr(v4(3, 3)), Ok(vec![1]));
    assert_eq!(m.add_local_addr(v4(4, 4)), Ok(vec![2, 3]));
    let states = m.path_states();
    let ids: Vec<u64> = states.iter().map(|s| s.0).collect();
    assert_eq!(ids, vec![0, 1, 2, 3]);
}

#[test]
fn new_peer_pairs_with_every_local() {
    let mut m = PathManagement::new();
    let locals = [v4(10, 1), v4(11, 1), v4(12, 1)];
    for l in locals.iter() {
        assert_eq!(m.add_local_addr(*l), Ok(vec![]));
    }
    let peer = v4(20, 443);
    assert_eq!(m.add_peer_addr(peer), Ok(vec![0, 1, 2]));
    for (k, l) in locals.iter().enumerate() {
        let p = m.path(k as u64).unwrap();
        assert_eq!(p.peer_addr, peer);
        assert_eq!(p.local_addr, *l);
        assert_eq!(p.state, PathState::Validating);
    }
    assert_eq!(m.next_challenge_to_send(), Some(0));
    assert_eq!(m.next_challenge_to_send(), Some(1));
    assert_eq!(m.next_challenge_to_send(), Some(2));
    assert_eq!(m.next_challenge_to_send(), None);
}

#[test]
fn new_local_pairs_with_every_peer_and_keeps_verification() {
    let mut m = PathManagement::new();
    let peers = [v4(30, 1), v4(31, 1)];
    for p in peers.iter() {
        assert_eq!(m.add_peer_addr(*p), Ok(vec![]));
    }
    assert_eq!(m.verify_peer_addr(peers[1]), Ok(()));
    let local = v4(40, 9);
    assert_eq!(m.add_local_addr(local), Ok(vec![0, 1]));
    assert_eq!(m.path(0).unwrap().peer_addr, peers[0]);
    assert_eq!(m.path(1).unwrap().peer_addr, peers[1]);
    assert!(!m.path(0).unwrap().verified_peer_addr);
    assert!(m.path(1).unwrap().verified_peer_addr);
    assert_eq!(m.path(1).unwrap().local_addr, local);
}

#[test]
fn duplicate_local_address_creates_nothing() {
    let mut m = scenario_b();
    assert_eq!(m.add_local_addr(l1()), Err(Error::DuplicateAddress));
    assert_eq!(m.path_count(), 2);
    assert_eq!(m.local_addrs().len(), 2);
}

#[test]
fn activation_needs_the_outstanding_token() {
    let mut m = scenario_b();
    assert_eq!(m.issue_challenge(1, T1), Ok(()));
    assert_eq!(m.activate_path(p1(), l2(), Some(T2)), Err(Error::ChallengeMismatch));
    assert_eq!(m.activate_path(p1(), l2(), None), Err(Error::ChallengeMismatch));
    assert_eq!(state(&m, 1), PathState::Validating);
    assert_eq!(m.path(1).unwrap().challenge, Some(T1));
    assert_eq!(m.activate_path(p1(), v4(99, 1), Some(T1)), Err(Error::NotFound));
    assert_eq!(m.activate_path(p1(), l2(), Some(T1)), Ok(1));
}

#[test]
fn activation_without_any_challenge() {
    let mut m = scenario_a();
    assert_eq!(m.activate_path(p1(), l1(), Some(T1)), Err(Error::ChallengeMismatch));
    assert_eq!(m.activate_path(p1(), l1(), None), Ok(0));
    assert_eq!(state(&m, 0), PathState::Active);
}

#[test]
fn retransmit_then_activate_same_path() {
    let mut m = scenario_b();
    assert_eq!(m.issue_challenge(1, T2), Ok(()));
    assert_eq!(m.retransmit_path_challenge(T2), Ok(1));
    assert_eq!(m.activate_path(p1(), l2(), Some(T2)), Ok(1));
    assert_eq!(m.retransmit_path_challenge(T2), Err(Error::NotFound));
}

#[test]
fn retransmit_requeues_challenge() {
    let mut m = scenario_a();
    assert_eq!(m.next_challenge_to_send(), Some(0));
    assert_eq!(m.next_challenge_to_send(), None);
    assert_eq!(m.issue_challenge(0, T1), Ok(()));
    assert_eq!(m.retransmit_path_challenge(T1), Ok(0));
    assert_eq!(m.next_challenge_to_send(), Some(0));
}

#[test]
fn verification_reaches_paths_in_every_state() {
    let mut m = PathManagement::new();
    let peer = v4(50, 1);
    let other = v4(51, 1);
    m.add_peer_addr(peer).unwrap();
    m.add_peer_addr(other).unwrap();
    m.add_local_addr(v4(60, 1)).unwrap();
    m.add_local_addr(v4(61, 1)).unwrap();
    m.add_local_addr(v4(62, 1)).unwrap();
    // paths 0, 2, 4 use `peer`
    assert_eq!(m.activate_path(peer, v4(61, 1), None), Ok(2));
    assert_eq!(m.close_path(4), Ok(()));
    assert_eq!(m.verify_peer_addr(peer), Ok(()));
    for id in [0u64, 2, 4] {
        assert!(m.path(id).unwrap().verified_peer_addr);
    }
    for id in [1u64, 3, 5] {
        assert!(!m.path(id).unwrap().verified_peer_addr);
    }
    assert_eq!(state(&m, 0), PathState::Validating);
    assert_eq!(state(&m, 2), PathState::Active);
    assert_eq!(state(&m, 4), PathState::Closed);
    assert_eq!(m.is_peer_verified(peer), Some(true));
    assert_eq!(m.is_peer_verified(other), Some(false));
    assert_eq!(m.is_peer_verified(v4(70, 1)), None);
}

#[test]
fn verifying_unknown_address_is_not_an_error() {
    let mut m = scenario_b();
    assert_eq!(m.verify_peer_addr(v4(77, 7)), Ok(()));
    assert!(!m.path(0).unwrap().verified_peer_addr);
}

#[test]
fn responses_leave_in_receipt_order() {
    let mut m = scenario_b();
    let t3 = [3u8; 8];
    assert_eq!(m.receive_path_challenge(p1(), l1(), T1), Ok(0));
    assert_eq!(m.receive_path_challenge(p1(), l1(), T2), Ok(0));
    assert_eq!(m.receive_path_challenge(p1(), l2(), t3), Ok(1));
    let mut out = Vec::new();
    while let Ok(f) = m.get_path_response_frame() {
        out.push(f.data());
    }
    assert_eq!(out, vec![T1, T2, t3]);
}

#[test]
fn responses_leave_in_receipt_order_across_paths() {
    let mut m = scenario_b();
    let t3 = [3u8; 8];
    assert_eq!(m.receive_path_challenge(p1(), l1(), T1), Ok(0));
    assert_eq!(m.receive_path_challenge(p1(), l2(), T2), Ok(1));
    assert_eq!(m.receive_path_challenge(p1(), l1(), t3), Ok(0));
    let mut out = Vec::new();
    while let Ok(f) = m.get_path_response_frame() {
        assert_eq!(f.frame_type(), PATH_RESPONSE_TYPE);
        out.push(f.data());
    }
    assert_eq!(out, vec![T1, T2, t3]);
    assert!(m.path(0).unwrap().responses.is_empty());
    assert!(m.path(1).unwrap().responses.is_empty());
}

#[test]
fn closed_path_records_challenges_and_drain_discards_them() {
    let mut m = scenario_b();
    assert_eq!(m.receive_path_challenge(p1(), l1(), T1), Ok(0));
    assert_eq!(m.close_path(0), Ok(()));
    assert_eq!(m.path(0).unwrap().responses, vec![T1]);
    assert_eq!(m.receive_path_challenge(p1(), l1(), T2), Ok(0));
    assert_eq!(m.path(0).unwrap().responses, vec![T1, T2]);
    assert!(matches!(m.get_path_response_frame(), Err(Error::Done)));
    assert!(m.path(0).unwrap().responses.is_empty());
    assert_eq!(state(&m, 0), PathState::Closed);
}

#[test]
fn closed_path_responses_are_skipped() {
    let mut m = scenario_b();
    assert_eq!(m.receive_path_challenge(p1(), l1(), T1), Ok(0));
    assert_eq!(m.receive_path_challenge(p1(), l2(), T2), Ok(1));
    assert_eq!(m.close_path(0), Ok(()));
    match m.get_path_response_frame() {
        Ok(f) => assert_eq!(f.data(), T2),
        Err(e) => panic!("unexpected {:?}", e),
    }
    assert!(matches!(m.get_path_response_frame(), Err(Error::Done)));
}

#[test]
fn receive_challenge_on_unknown_pair() {
    let mut m = scenario_a();
    assert_eq!(m.receive_path_challenge(p1(), l2(), T1), Err(Error::NotFound));
    assert!(matches!(m.get_path_response_frame(), Err(Error::Done)));
}

#[test]
fn closed_path_is_inert() {
    let mut m = scenario_b();
    assert_eq!(m.issue_challenge(0, T1), Ok(()));
    assert_eq!(m.close_path(0), Ok(()));
    assert_eq!(m.close_path(0), Ok(()));
    assert_eq!(state(&m, 0), PathState::Closed);
    assert_eq!(m.path(0).unwrap().challenge, Some(T1));
    assert_eq!(m.issue_challenge(0, T2), Err(Error::InvalidState));
    assert_eq!(m.activate_path(p1(), l1(), None), Err(Error::InvalidState));
    assert_eq!(m.activate_path(p1(), l1(), Some(T1)), Err(Error::InvalidState));
    // the retransmission is queued, and the challenge drain skips it
    assert_eq!(m.retransmit_path_challenge(T1), Ok(0));
    assert_eq!(m.next_challenge_to_send(), Some(1));
    assert_eq!(m.next_challenge_to_send(), None);
    assert_eq!(m.close_path(9), Err(Error::NotFound));
    assert_eq!(m.issue_challenge(9, T2), Err(Error::NotFound));
}

#[test]
fn challenge_queue_skips_settled_paths() {
    let mut m = scenario_b();
    assert_eq!(m.activate_path(p1(), l1(), None), Ok(0));
    assert_eq!(m.next_challenge_to_send(), Some(1));
    assert_eq!(m.next_challenge_to_send(), None);
}

#[test]
fn default_path_is_first_created() {
    let m = PathManagement::new();
    assert!(matches!(m.default_path(), Err(Error::InvalidState)));
    let m = scenario_b();
    assert_eq!(m.default_path().unwrap().id, 0);
    assert_eq!(m.find_path(p1(), l2()), Some(1));
    assert_eq!(m.find_path(l2(), p1()), None);
}

#[test]
fn path_table_rejects_duplicate_pair() {
    let mut t = PathEntries::new();
    assert_eq!(t.add(p1(), false, l1()), Ok(0));
    assert_eq!(t.add(p1(), true, l1()), Err(Error::DuplicateAddressPair));
    assert_eq!(t.add(p1(), true, l2()), Ok(1));
    assert_eq!(t.len(), 2);
    assert_eq!(t.find_by_address_pair(p1(), l2()), Some(1));
    assert_eq!(t.find_by_challenge_token(T1), Err(Error::NotFound));
    assert_eq!(t.set_outstanding_challenge(1, T1), Ok(()));
    assert_eq!(t.find_by_challenge_token(T1), Ok(1));
    assert_eq!(t.record_inbound_challenge(p1(), l1(), T2), Ok(0));
    assert_eq!(t.pop_response(0), T2);
}

#[test]
fn registry_tracks_addresses() {
    let mut r = AddressRegistry::new();
    assert_eq!(r.add_peer_address(p1()), Ok(()));
    assert_eq!(r.add_peer_address(p1()), Err(Error::DuplicateAddress));
    assert_eq!(r.add_local_address(l1()), Ok(()));
    assert_eq!(r.add_local_address(l1()), Err(Error::DuplicateAddress));
    assert_eq!(r.is_peer_verified(p1()), Some(false));
    r.mark_peer_verified(p1());
    r.mark_peer_verified(p1());
    assert_eq!(r.is_peer_verified(p1()), Some(true));
    r.mark_peer_verified(l2());
    assert_eq!(r.peer_count(), 1);
    assert_eq!(r.local_at(0), l1());
}

#[test]
fn scheduler_queues_are_fifo() {
    let mut s = ValidationScheduler::new();
    s.enqueue_challenge(3);
    s.enqueue_challenge(1);
    s.enqueue_response(7);
    assert_eq!(s.drain_one_challenge(), Some(3));
    assert_eq!(s.drain_one_challenge(), Some(1));
    assert_eq!(s.drain_one_challenge(), None);
    assert_eq!(s.drain_one_response(), Some(7));
    assert_eq!(s.drain_one_response(), None);
}

#[test]
fn frame_types_and_tokens() {
    let c = Frame::PathChallenge { data: T1 };
    let r = Frame::PathResponse { data: T2 };
    assert_eq!(c.frame_type(), 0x1a);
    assert_eq!(r.frame_type(), 0x1b);
    assert_eq!(PATH_CHALLENGE_TYPE, 0x1a);
    assert_eq!(PATH_RESPONSE_TYPE, 0x1b);
    assert_eq!(c.data(), T1);
    assert!(token_eq(&T1, &T1));
    assert!(!token_eq(&T1, &T2));
    assert!(!token_eq(&[0u8; 8], &[0, 0, 0, 0, 0, 0, 0, 1]));
}

#[test]
fn ipv6_addresses_are_distinct_from_ipv4() {
    let mut m = PathManagement::new();
    let a = SocketAddress { ip: IpAddress::V6(1), port: 80 };
    let b = SocketAddress { ip: IpAddress::V4(1), port: 80 };
    assert_eq!(m.add_peer_addr(a), Ok(vec![]));
    assert_eq!(m.add_peer_addr(b), Ok(vec![]));
}

#[test]
fn tls_pointer_mapping() {
    let x = 5u32;
    assert_eq!(map_result_ptr(Some(&x)), Ok(&5));
    assert_eq!(map_result_ptr::<u32>(None), Err(Error::TlsFail));
}
