use utp_rs::congestion::{Ack, Config, Controller, Error, Transmit};
use utp_rs::time::{Duration, Instant};

fn ack(delay_millis: u64, rtt_millis: u64, at_millis: u64) -> Ack {
    Ack {
        delay: Duration::from_millis(delay_millis),
        rtt: Duration::from_millis(rtt_millis),
        received_at: Instant { nanos: at_millis * 1_000_000 },
    }
}

#[test]
fn window_counts_bytes() {
    let mut controller = Controller::new(Config::default());
    assert_eq!(controller.bytes_available_in_window(), 2048);
    assert_eq!(controller.on_transmit(1, Transmit::Initial { bytes: 2000 }), Ok(()));
    assert_eq!(controller.bytes_available_in_window(), 48);
    assert_eq!(
        controller.on_transmit(2, Transmit::Initial { bytes: 49 }),
        Err(Error::InsufficientWindowSize)
    );
    assert_eq!(controller.on_transmit(1, Transmit::Retransmission), Ok(()));
    assert_eq!(controller.bytes_available_in_window(), 48);
}

#[test]
fn unknown_packets_are_refused() {
    let mut controller = Controller::new(Config::default());
    assert_eq!(controller.on_transmit(1, Transmit::Retransmission), Err(Error::UnknownSeqNum));
    assert_eq!(controller.on_ack(1, ack(1, 1, 1)), Err(Error::UnknownSeqNum));
    assert_eq!(controller.on_lost_packet(1, true), Err(Error::UnknownSeqNum));
}

#[test]
fn ack_frees_bytes_once_and_widens_the_window() {
    let mut controller = Controller::new(Config::default());
    controller.on_transmit(1, Transmit::Initial { bytes: 1024 }).unwrap();
    // No delay above the base: 1024 * 1024 / 2048 bytes more.
    controller.on_ack(1, ack(20, 40, 100)).unwrap();
    assert_eq!(controller.bytes_available_in_window(), 2560);
    controller.on_ack(1, ack(20, 40, 200)).unwrap();
    assert_eq!(controller.bytes_available_in_window(), 2560);
}

#[test]
fn delay_above_the_target_narrows_the_window() {
    let mut controller = Controller::new(Config::default());
    controller.on_transmit(1, Transmit::Initial { bytes: 1024 }).unwrap();
    controller.on_ack(1, ack(20, 40, 100)).unwrap();
    controller.on_transmit(2, Transmit::Initial { bytes: 1024 }).unwrap();
    // 50 ms above the target of 100 ms: 1024 * 1024 / 2560 / 2 = 204 bytes less.
    controller.on_ack(2, ack(170, 40, 200)).unwrap();
    assert_eq!(controller.bytes_available_in_window(), 2356);
}

#[test]
fn old_samples_do_not_count() {
    let mut controller = Controller::new(Config::default());
    controller.on_transmit(1, Transmit::Initial { bytes: 1024 }).unwrap();
    controller.on_ack(1, ack(20, 40, 100)).unwrap();
    controller.on_transmit(2, Transmit::Initial { bytes: 1024 }).unwrap();
    // More than two minutes later the delay is its own base: 1024 * 1024 / 2560 bytes more.
    controller.on_ack(2, ack(170, 40, 130_000)).unwrap();
    assert_eq!(controller.bytes_available_in_window(), 2969);
}

#[test]
fn round_trips_set_the_timeout() {
    let mut controller = Controller::new(Config::default());
    assert_eq!(controller.timeout(), Duration::from_millis(1000));
    controller.on_transmit(1, Transmit::Initial { bytes: 1 }).unwrap();
    controller.on_ack(1, ack(1, 8000, 1)).unwrap();
    // A variance of 2000 ms and an estimate of 1000 ms.
    assert_eq!(controller.timeout(), Duration::from_millis(9000));
    controller.on_transmit(2, Transmit::Initial { bytes: 1 }).unwrap();
    controller.on_transmit(2, Transmit::Retransmission).unwrap();
    controller.on_ack(2, ack(1, 1, 2)).unwrap();
    assert_eq!(controller.timeout(), Duration::from_millis(9000));
    controller.on_timeout();
    assert_eq!(controller.timeout(), Duration::from_millis(18_000));

    let mut quick = Controller::new(Config::default());
    quick.on_transmit(1, Transmit::Initial { bytes: 1 }).unwrap();
    quick.on_ack(1, ack(1, 8, 1)).unwrap();
    assert_eq!(quick.timeout(), Duration::from_millis(500));
}

#[test]
fn loss_halves_the_window_down_to_two_packets() {
    let mut controller = Controller::new(Config { max_packet_size_bytes: 100, ..Config::default() });
    assert_eq!(controller.bytes_available_in_window(), 200);
    controller.on_transmit(1, Transmit::Initial { bytes: 200 }).unwrap();
    controller.on_ack(1, ack(1, 1, 1)).unwrap();
    assert_eq!(controller.bytes_available_in_window(), 1224);
    controller.on_transmit(2, Transmit::Initial { bytes: 24 }).unwrap();
    controller.on_lost_packet(2, true).unwrap();
    assert_eq!(controller.bytes_available_in_window(), 588);
    controller.on_lost_packet(2, false).unwrap();
    assert_eq!(controller.bytes_available_in_window(), 306);
    controller.on_lost_packet(2, false).unwrap();
    assert_eq!(controller.bytes_available_in_window(), 200);
    controller.on_timeout();
    assert_eq!(controller.bytes_available_in_window(), 200);
}
