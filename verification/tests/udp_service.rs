use pix_harness::udp_service::{Mode, Peer, UdpService};

const CLIENT: Peer = Peer::V4 { ip: 0x7f00_0001, port: 4_000 };

const STRANGER: Peer = Peer::V6 { ip: 1, port: 4_000, flowinfo: 2, scope_id: 3 };

/// A sink receives and answers nothing — the property the upload shape rests on.
#[test]
fn a_sink_accounts_and_starts_no_push() {
    let mut service = UdpService::new(Mode::Sink);
    assert_eq!(None, service.on_datagram(CLIENT, 512));
    assert_eq!(None, service.on_datagram(CLIENT, 1));
    assert_eq!(513, service.received());
    assert_eq!(0, service.sent());
}

/// A push answers one request with a sustained stream, and stops at the total it was given.
#[test]
fn a_push_sends_until_its_total_is_spent() {
    let mut service = UdpService::new(Mode::Push { datagram: 100, rate: 200, total_bytes: 1_000 });
    let mut push = service.on_datagram(CLIENT, 2).expect("the first datagram starts the push");
    assert_eq!(None, service.on_datagram(CLIENT, 2), "a second request starts no second push");
    assert_eq!(vec![0xABu8; 100], push.payload());
    assert_eq!(5_000, push.period_micros());
    let mut sends = 0;
    while !push.is_over() {
        service.on_sent(&mut push, 100);
        sends += 1;
    }
    assert_eq!(10, sends);
    assert_eq!(1_000, push.total);
    assert_eq!(1_000, service.sent());
    assert_eq!(4, service.received());
}

#[test]
fn a_push_goes_over_its_total_by_less_than_a_datagram() {
    let mut service = UdpService::new(Mode::Push { datagram: 300, rate: 0, total_bytes: 1_000 });
    let mut push = service.on_datagram(CLIENT, 1).expect("a push");
    assert_eq!(1_000_000, push.period_micros());
    while !push.is_over() {
        service.on_sent(&mut push, 300);
    }
    assert_eq!(1_200, push.total);
}

#[test]
fn a_failed_send_ends_the_push() {
    let mut service = UdpService::new(Mode::Push { datagram: 300, rate: 3, total_bytes: 1_000 });
    let mut push = service.on_datagram(CLIENT, 1).expect("a push");
    assert!(!push.is_over());
    assert_eq!(333_333, push.period_micros());
    push.fail();
    assert!(push.is_over());
    assert_eq!(0, service.sent());
    assert_eq!(None, service.on_datagram(CLIENT, 1), "and no other takes its place");
}

#[test]
fn a_push_of_nothing_is_over_at_once() {
    let mut service = UdpService::new(Mode::Push { datagram: 300, rate: 3, total_bytes: 0 });
    assert!(service.on_datagram(CLIENT, 1).expect("a push").is_over());
}

#[test]
fn every_byte_is_accounted_for() {
    let mut service = UdpService::new(Mode::Sink);
    for len in [0, 1, 512, 4096] {
        service.on_datagram(CLIENT, len);
    }
    assert_eq!(4609, service.received());
    service.received = u64::MAX;
    service.on_datagram(CLIENT, 2);
    assert_eq!(1, service.received(), "the accounts go round");
}

/// The period is never nothing, however high the rate, so that the push goes on to its total.
#[test]
fn a_push_goes_out_whatever_its_rate() {
    for (rate, micros) in [
        (0, 1_000_000),
        (1, 1_000_000),
        (3, 333_333),
        (999_999, 1),
        (1_000_000, 1),
        (1_000_001, 1),
        (2_000_000, 1),
        (u64::MAX, 1),
    ] {
        let mut service = UdpService::new(Mode::Push { datagram: 100, rate, total_bytes: 200 });
        let mut push = service.on_datagram(CLIENT, 2).expect("a push");
        assert_eq!(micros, push.period_micros(), "{rate}");
        let mut sends = 0;
        while !push.is_over() {
            service.on_sent(&mut push, 100);
            sends += 1;
        }
        assert_eq!(2, sends);
        assert_eq!(200, service.sent());
    }
}

#[test]
fn a_push_goes_to_whoever_asked_first() {
    let mut service = UdpService::new(Mode::Push { datagram: 100, rate: 1, total_bytes: 200 });
    let mut push = service.on_datagram(STRANGER, 2).expect("a push");
    assert_eq!(STRANGER, push.to);
    assert_eq!(None, service.on_datagram(CLIENT, 2));
    service.on_sent(&mut push, 100);
    assert_eq!(STRANGER, push.to);
}
