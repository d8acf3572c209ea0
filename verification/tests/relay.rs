use udprelay::peer::{build_paired_peers, Datagram, PeerAddr, RecipientData, Session};
use udprelay::service::{process_pairing_request, Event, RelayConfig, RelayService};
use udprelay::timer::{ExpiringTimer, NANOS_PER_SEC};

const X: PeerAddr = PeerAddr { ip: 0x0a00_0001, port: 5000 };
const Y: PeerAddr = PeerAddr { ip: 0x0a00_0002, port: 6000 };
const Z: PeerAddr = PeerAddr { ip: 0x0a00_0003, port: 7000 };

fn secs(n: u128) -> u128 {
    n * NANOS_PER_SEC
}

fn config() -> RelayConfig {
    RelayConfig {
        timeout_no_connections: 300,
        timeout_pairing: 90,
        timeout_connection_inactivities: 180,
        preshared_key: b"secret".to_vec(),
    }
}

fn establish(psk: &[u8], token: &[u8]) -> Vec<u8> {
    let mut frame = vec![0xff, 0x05, psk.len() as u8, token.len() as u8];
    frame.extend_from_slice(psk);
    frame.extend_from_slice(token);
    frame
}

fn datagram(from: PeerAddr, payload: &[u8]) -> Event {
    Event::Datagram { from, payload: payload.to_vec() }
}

fn paired_relay(now: u128) -> RelayService {
    let mut relay = RelayService::new();
    relay.step(&config(), datagram(X, &establish(b"secret", b"tok")), now);
    relay.step(&config(), datagram(Y, &establish(b"secret", b"tok")), now);
    relay
}

#[test]
fn new_relay_is_empty() {
    let relay = RelayService::new();
    assert!(relay.is_empty());
    assert_eq!(relay.pending_count(), 0);
    assert_eq!(relay.session_count(), 0);
    assert_eq!(relay.empty_since(), None);
    assert!(!relay.is_paired(X));
    assert_eq!(relay.claim_of(b"tok"), None);
}

#[test]
fn build_paired_peers_makes_each_the_others_opponent() {
    let session = build_paired_peers(X, Y, 17);
    assert_eq!(
        session,
        Session {
            first: RecipientData { addr: X, last_accessed: ExpiringTimer(17) },
            second: RecipientData { addr: Y, last_accessed: ExpiringTimer(17) },
        }
    );
    assert!(session.contains(X));
    assert!(session.contains(Y));
    assert!(!session.contains(Z));
    assert_eq!(session.get_opponent(X).addr, Y);
    assert_eq!(session.get_opponent(Y).addr, X);
}

#[test]
fn session_touch_sets_only_the_senders_timer() {
    let mut session = build_paired_peers(X, Y, 1);
    session.touch(Y, 5);
    assert_eq!(session.first.last_accessed, ExpiringTimer(1));
    assert_eq!(session.second.last_accessed, ExpiringTimer(5));
    session.touch(X, 8);
    assert_eq!(session.first.last_accessed, ExpiringTimer(8));
    assert_eq!(session.second.last_accessed, ExpiringTimer(5));
}

#[test]
fn session_is_idle_only_when_both_are() {
    let mut session = build_paired_peers(X, Y, 0);
    assert!(!session.is_idle(secs(179), 180));
    assert!(session.is_idle(secs(180), 180));
    session.touch(X, secs(100));
    assert!(!session.is_idle(secs(180), 180));
    assert!(!session.is_idle(secs(279), 180));
    assert!(session.is_idle(secs(280), 180));
}

#[test]
fn happy_pairing() {
    let cfg = config();
    let mut relay = RelayService::new();
    let frame = [
        0xff, 0x05, 0x06, 0x03, b's', b'e', b'c', b'r', b'e', b't', b't', b'o', b'k',
    ];

    let first = relay.step(&cfg, datagram(X, &frame), secs(1));
    assert_eq!(
        first.send,
        Some(Datagram { to: X, payload: vec![0xff, 0x12, b't', b'o', b'k'] })
    );
    assert!(!first.stop);
    assert_eq!(relay.claim_of(b"tok"), Some((X, ExpiringTimer(secs(1)))));
    assert!(!relay.is_paired(X));

    let second = relay.step(&cfg, datagram(Y, &frame), secs(2));
    assert_eq!(second.send, None);
    assert!(!second.stop);
    assert!(relay.is_paired(X));
    assert!(relay.is_paired(Y));
    assert_eq!(relay.pending_count(), 0);
    assert_eq!(relay.session_count(), 1);
    assert_eq!(relay.claim_of(b"tok"), None);

    let out = relay.step(&cfg, datagram(X, b"hello from x"), secs(3));
    assert_eq!(out.send, Some(Datagram { to: Y, payload: b"hello from x".to_vec() }));
    let back = relay.step(&cfg, datagram(Y, b"hello from y"), secs(4));
    assert_eq!(back.send, Some(Datagram { to: X, payload: b"hello from y".to_vec() }));
}

#[test]
fn psk_mismatch_is_dropped() {
    let cfg = config();
    let mut relay = RelayService::new();
    relay.step(&cfg, datagram(X, &establish(b"secret", b"tok")), secs(1));
    let out = relay.step(&cfg, datagram(Y, &establish(b"SECRET", b"tok")), secs(2));
    assert_eq!(out.send, None);
    assert_eq!(relay.pending_count(), 1);
    assert_eq!(relay.claim_of(b"tok"), Some((X, ExpiringTimer(secs(1)))));
    assert_eq!(relay.session_count(), 0);
    assert!(!relay.is_paired(Y));
}

#[test]
fn malformed_frames_change_nothing() {
    let cfg = config();
    let mut relay = RelayService::new();
    for payload in [&b""[..], &b"\xff"[..], &b"\xff\x05"[..], &b"plain text payload"[..]] {
        let out = relay.step(&cfg, datagram(X, payload), secs(1));
        assert_eq!(out.send, None);
        assert!(relay.is_empty());
    }
}

#[test]
fn duplicate_claimant_touches_timer() {
    let cfg = config();
    let mut relay = RelayService::new();
    let frame = establish(b"secret", b"tok");
    let mut acks = 0;
    for i in 1..=5u128 {
        let out = relay.step(&cfg, datagram(X, &frame), secs(i));
        if out.send.is_some() {
            acks += 1;
        }
        assert_eq!(relay.pending_count(), 1);
        assert_eq!(relay.claim_of(b"tok"), Some((X, ExpiringTimer(secs(i)))));
        assert_eq!(relay.session_count(), 0);
    }
    assert_eq!(acks, 1);
}

#[test]
fn repeated_claims_leave_what_one_claim_leaves() {
    let cfg = config();
    let frame = establish(b"secret", b"fresh");
    let mut many = RelayService::new();
    for i in 1..=7u128 {
        many.step(&cfg, datagram(X, &frame), secs(i));
    }
    let mut once = RelayService::new();
    once.step(&cfg, Event::Timeout, secs(1));
    once.step(&cfg, datagram(X, &frame), secs(7));
    assert_eq!(many.pending_count(), once.pending_count());
    assert_eq!(many.claim_of(b"fresh"), once.claim_of(b"fresh"));
    assert_eq!(many.session_count(), once.session_count());
}

#[test]
fn duplicate_claim_keeps_the_pairing_alive() {
    let cfg = config();
    let mut relay = RelayService::new();
    let frame = establish(b"secret", b"tok");
    relay.step(&cfg, datagram(X, &frame), secs(0));
    relay.step(&cfg, datagram(X, &frame), secs(60));
    relay.step(&cfg, Event::Timeout, secs(100));
    assert_eq!(relay.pending_count(), 1);
    relay.step(&cfg, Event::Timeout, secs(150));
    assert_eq!(relay.pending_count(), 0);
}

#[test]
fn pairing_expiry() {
    let cfg = config();
    let mut relay = RelayService::new();
    let frame = establish(b"secret", b"t");
    relay.step(&cfg, datagram(X, &frame), secs(10));
    relay.step(&cfg, Event::Timeout, secs(99));
    assert_eq!(relay.claim_of(b"t"), Some((X, ExpiringTimer(secs(10)))));
    relay.step(&cfg, Event::Timeout, secs(100));
    assert_eq!(relay.claim_of(b"t"), None);
    assert_eq!(relay.pending_count(), 0);

    let out = relay.step(&cfg, datagram(Y, &frame), secs(101));
    assert_eq!(out.send, Some(Datagram { to: Y, payload: vec![0xff, 0x12, b't'] }));
    assert_eq!(relay.claim_of(b"t"), Some((Y, ExpiringTimer(secs(101)))));
    assert_eq!(relay.session_count(), 0);
}

#[test]
fn pending_expiry_keeps_younger_claims_in_order() {
    let cfg = config();
    let mut relay = RelayService::new();
    relay.offer(b"a".to_vec(), X, secs(0));
    relay.offer(b"b".to_vec(), Y, secs(50));
    relay.offer(b"c".to_vec(), Z, secs(1));
    relay.offer(b"d".to_vec(), X, secs(2));
    relay.remove_expired_pairing_request(&cfg, secs(91));
    assert_eq!(relay.pending_count(), 2);
    assert_eq!(relay.claim_of(b"a"), None);
    assert_eq!(relay.claim_of(b"b"), Some((Y, ExpiringTimer(secs(50)))));
    assert_eq!(relay.claim_of(b"c"), None);
    assert_eq!(relay.claim_of(b"d"), Some((X, ExpiringTimer(secs(2)))));
    relay.remove_expired_pairing_request(&cfg, secs(92));
    assert_eq!(relay.pending_count(), 1);
    assert_eq!(relay.claim_of(b"b"), Some((Y, ExpiringTimer(secs(50)))));
}

#[test]
fn session_idle_expiry() {
    let cfg = config();
    let mut relay = paired_relay(secs(0));
    relay.step(&cfg, Event::Timeout, secs(179));
    assert!(relay.is_paired(X));
    assert!(relay.is_paired(Y));
    relay.step(&cfg, Event::Timeout, secs(181));
    assert!(!relay.is_paired(X));
    assert!(!relay.is_paired(Y));
    assert_eq!(relay.session_count(), 0);

    let out = relay.step(&cfg, datagram(X, b"late payload"), secs(182));
    assert_eq!(out.send, None);
    assert!(!relay.is_paired(X));
    assert_eq!(relay.pending_count(), 0);
}

#[test]
fn one_sided_traffic_keeps_the_session() {
    let cfg = config();
    let mut relay = paired_relay(secs(0));
    let mut now = 0;
    while now < 400 {
        now += 20;
        let out = relay.step(&cfg, datagram(X, b"ping"), secs(now));
        assert_eq!(out.send, Some(Datagram { to: Y, payload: b"ping".to_vec() }));
    }
    assert!(relay.is_paired(X));
    assert!(relay.is_paired(Y));
    relay.step(&cfg, Event::Timeout, secs(now + 179));
    assert!(relay.is_paired(Y));
    relay.step(&cfg, Event::Timeout, secs(now + 180));
    assert!(!relay.is_paired(X));
    assert!(!relay.is_paired(Y));
}

#[test]
fn forward_touches_the_senders_timer_only() {
    let mut relay = paired_relay(secs(0));
    let out = relay.forward(Y, b"data".to_vec(), secs(5));
    assert_eq!(out, Some(Datagram { to: X, payload: b"data".to_vec() }));
    assert_eq!(
        relay.session_of(X),
        Some(Session {
            first: RecipientData { addr: X, last_accessed: ExpiringTimer(secs(0)) },
            second: RecipientData { addr: Y, last_accessed: ExpiringTimer(secs(5)) },
        })
    );
    assert_eq!(relay.session_of(X), relay.session_of(Y));
}

#[test]
fn forward_from_a_stranger_does_nothing() {
    let mut relay = paired_relay(secs(0));
    let before = relay.session_of(X);
    assert_eq!(relay.forward(Z, b"data".to_vec(), secs(5)), None);
    assert_eq!(relay.session_of(X), before);
    assert_eq!(relay.session_of(Z), None);
}

#[test]
fn payload_is_forwarded_byte_for_byte() {
    let cfg = config();
    let mut relay = paired_relay(secs(0));
    let payload: Vec<u8> = (0..=255u8).collect();
    let out = relay.step(&cfg, datagram(X, &payload), secs(1));
    assert_eq!(out.send, Some(Datagram { to: Y, payload: payload.clone() }));
    let empty = relay.step(&cfg, datagram(Y, b""), secs(2));
    assert_eq!(empty.send, Some(Datagram { to: X, payload: vec![] }));
}

#[test]
fn establish_from_a_paired_peer_is_forwarded_as_data() {
    let cfg = config();
    let mut relay = paired_relay(secs(0));
    let frame = establish(b"secret", b"other");
    let out = relay.step(&cfg, datagram(X, &frame), secs(1));
    assert_eq!(out.send, Some(Datagram { to: Y, payload: frame }));
    assert_eq!(relay.pending_count(), 0);
    assert_eq!(relay.session_count(), 1);
}

#[test]
fn offer_covers_the_three_cases() {
    let mut relay = RelayService::new();
    let ack = relay.offer(b"tok".to_vec(), X, 1);
    assert_eq!(ack, Some(Datagram { to: X, payload: vec![0xff, 0x12, b't', b'o', b'k'] }));
    assert_eq!(relay.claim_of(b"tok"), Some((X, ExpiringTimer(1))));

    assert_eq!(relay.offer(b"tok".to_vec(), X, 2), None);
    assert_eq!(relay.claim_of(b"tok"), Some((X, ExpiringTimer(2))));
    assert_eq!(relay.pending_count(), 1);

    assert_eq!(relay.offer(b"tok".to_vec(), Y, 3), None);
    assert_eq!(relay.pending_count(), 0);
    assert_eq!(relay.session_of(X), Some(build_paired_peers(X, Y, 3)));
    assert_eq!(relay.session_of(Y), Some(build_paired_peers(X, Y, 3)));
}

#[test]
fn tokens_pair_independently() {
    let mut relay = RelayService::new();
    relay.offer(b"a".to_vec(), X, 1);
    relay.offer(b"b".to_vec(), Y, 2);
    assert_eq!(relay.pending_count(), 2);
    relay.offer(b"b".to_vec(), Z, 3);
    assert_eq!(relay.pending_count(), 1);
    assert_eq!(relay.claim_of(b"a"), Some((X, ExpiringTimer(1))));
    assert!(relay.is_paired(Y));
    assert!(relay.is_paired(Z));
    assert!(!relay.is_paired(X));
    assert_eq!(relay.session_of(Z).map(|s| s.get_opponent(Z).addr), Some(Y));
}

#[test]
fn empty_token_is_a_token() {
    let cfg = config();
    let mut relay = RelayService::new();
    let out = relay.step(&cfg, datagram(X, &establish(b"secret", b"")), secs(1));
    assert_eq!(out.send, Some(Datagram { to: X, payload: vec![0xff, 0x12] }));
    relay.step(&cfg, datagram(Y, &establish(b"secret", b"")), secs(2));
    assert!(relay.is_paired(X));
    assert!(relay.is_paired(Y));
}

#[test]
fn process_pairing_request_parses_then_offers() {
    let cfg = config();
    let mut relay = RelayService::new();
    let reply = process_pairing_request(&cfg, &mut relay, &establish(b"secret", b"t"), X, 4);
    assert_eq!(reply, Some(Datagram { to: X, payload: vec![0xff, 0x12, b't'] }));
    assert_eq!(relay.claim_of(b"t"), Some((X, ExpiringTimer(4))));
    let dropped = process_pairing_request(&cfg, &mut relay, &establish(b"wrong!", b"u"), Y, 5);
    assert_eq!(dropped, None);
    assert_eq!(relay.pending_count(), 1);
    assert_eq!(relay.claim_of(b"u"), None);
}

#[test]
fn session_expiry_keeps_live_sessions_in_order() {
    let cfg = config();
    let mut relay = RelayService::new();
    relay.offer(b"a".to_vec(), X, secs(0));
    relay.offer(b"a".to_vec(), Y, secs(0));
    relay.offer(b"b".to_vec(), Z, secs(100));
    relay.offer(b"b".to_vec(), PeerAddr { ip: 1, port: 1 }, secs(100));
    assert_eq!(relay.session_count(), 2);
    relay.remove_inactive_connections(&cfg, secs(200));
    assert_eq!(relay.session_count(), 1);
    assert!(!relay.is_paired(X));
    assert!(!relay.is_paired(Y));
    assert!(relay.is_paired(Z));
}

#[test]
fn global_idle_shutdown() {
    let cfg = config();
    let mut relay = RelayService::new();
    let first = relay.step(&cfg, Event::Timeout, secs(0));
    assert!(!first.stop);
    assert_eq!(relay.empty_since(), Some(ExpiringTimer(secs(0))));
    assert!(!relay.step(&cfg, Event::Timeout, secs(25)).stop);
    assert!(!relay.step(&cfg, Event::ReceiveError, secs(299)).stop);
    assert_eq!(relay.empty_since(), Some(ExpiringTimer(secs(0))));
    let last = relay.step(&cfg, Event::Timeout, secs(301));
    assert!(last.stop);
    assert_eq!(last.send, None);
}

#[test]
fn a_connection_clears_the_empty_since_timer() {
    let cfg = config();
    let mut relay = RelayService::new();
    relay.step(&cfg, Event::Timeout, secs(0));
    let out = relay.step(&cfg, datagram(X, &establish(b"secret", b"t")), secs(299));
    assert!(!out.stop);
    assert_eq!(relay.empty_since(), None);
    // the claim expires in this turn; the timer starts in the next
    assert!(!relay.step(&cfg, Event::Timeout, secs(400)).stop);
    assert!(relay.is_empty());
    assert_eq!(relay.empty_since(), None);
    assert!(!relay.step(&cfg, Event::Timeout, secs(401)).stop);
    assert_eq!(relay.empty_since(), Some(ExpiringTimer(secs(401))));
    assert!(!relay.step(&cfg, Event::Timeout, secs(700)).stop);
    assert!(relay.step(&cfg, Event::Timeout, secs(701)).stop);
}

#[test]
fn a_valid_establish_in_the_last_turn_keeps_the_relay_up() {
    let cfg = config();
    let mut relay = RelayService::new();
    relay.step(&cfg, Event::Timeout, secs(0));
    let out = relay.step(&cfg, datagram(X, &establish(b"secret", b"t")), secs(500));
    assert!(!out.stop);
    assert_eq!(relay.pending_count(), 1);
}

#[test]
fn a_dropped_datagram_does_not_delay_shutdown() {
    let cfg = config();
    let mut relay = RelayService::new();
    relay.step(&cfg, Event::Timeout, secs(0));
    let out = relay.step(&cfg, datagram(X, b"noise"), secs(300));
    assert!(out.stop);
}

#[test]
fn watch_idle_follows_the_tables() {
    let cfg = config();
    let mut relay = RelayService::new();
    assert!(!relay.watch_idle(&cfg, secs(5)));
    assert_eq!(relay.empty_since(), Some(ExpiringTimer(secs(5))));
    assert!(!relay.watch_idle(&cfg, secs(304)));
    assert!(relay.watch_idle(&cfg, secs(305)));
    relay.offer(b"t".to_vec(), X, secs(306));
    assert!(!relay.watch_idle(&cfg, secs(400)));
    assert_eq!(relay.empty_since(), None);
}

#[test]
fn a_claimant_paired_under_another_token_resolves_to_its_latest_session() {
    let mut relay = RelayService::new();
    relay.offer(b"a".to_vec(), X, 1);
    relay.offer(b"b".to_vec(), X, 2);
    relay.offer(b"a".to_vec(), Y, 3);
    assert!(relay.is_paired(X));
    assert_eq!(relay.claim_of(b"b"), Some((X, ExpiringTimer(2))));
    relay.offer(b"b".to_vec(), Z, 4);
    assert_eq!(relay.session_count(), 2);
    assert_eq!(relay.session_of(X), Some(build_paired_peers(X, Z, 4)));
    assert_eq!(relay.session_of(Y), Some(build_paired_peers(X, Y, 3)));
    assert_eq!(relay.forward(Y, vec![1], 5).map(|d| d.to), Some(X));
    assert_eq!(relay.forward(X, vec![2], 6).map(|d| d.to), Some(Z));
}

#[test]
fn paired_addresses_resolve_to_sessions_that_list_them() {
    let mut relay = RelayService::new();
    relay.offer(b"a".to_vec(), X, 1);
    relay.offer(b"a".to_vec(), Y, 2);
    relay.offer(b"b".to_vec(), Z, 3);
    relay.offer(b"b".to_vec(), PeerAddr { ip: 9, port: 9 }, 4);
    for addr in [X, Y, Z, PeerAddr { ip: 9, port: 9 }] {
        let session = relay.session_of(addr).expect("paired");
        assert!(session.contains(addr));
        assert_ne!(session.first.addr, session.second.addr);
        let opponent = session.get_opponent(addr).addr;
        assert_ne!(opponent, addr);
        assert_eq!(relay.session_of(opponent), Some(session));
    }
    assert_eq!(relay.session_of(PeerAddr { ip: 9, port: 8 }), None);
}

#[test]
fn a_promoted_claimant_leaves_the_pending_table() {
    let cfg = config();
    let mut relay = RelayService::new();
    relay.step(&cfg, datagram(X, &establish(b"secret", b"tok")), secs(1));
    assert_eq!(relay.claim_of(b"tok").map(|c| c.0), Some(X));
    assert!(!relay.is_paired(X));
    relay.step(&cfg, datagram(Y, &establish(b"secret", b"tok")), secs(2));
    assert_eq!(relay.claim_of(b"tok"), None);
    assert!(relay.is_paired(X));
    assert!(relay.is_paired(Y));
    assert_eq!(relay.pending_count(), 0);
}

#[test]
fn same_port_on_another_host_is_another_peer() {
    let mut relay = RelayService::new();
    let twin = PeerAddr { ip: X.ip + 1, port: X.port };
    relay.offer(b"tok".to_vec(), X, 1);
    assert_eq!(relay.offer(b"tok".to_vec(), twin, 2), None);
    assert_eq!(relay.session_of(X), Some(build_paired_peers(X, twin, 2)));
}
