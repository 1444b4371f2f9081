use peer::{default_tracker_address, pieces_per_tick, PeerParams, Time};

#[test]
fn pieces_per_tick_is_the_byte_budget_in_whole_pieces() {
    assert_eq!(pieces_per_tick(1_048_576, 100_000_000), 102);
    assert_eq!(pieces_per_tick(1_048_576, 1_000_000_000), 1024);
    assert_eq!(pieces_per_tick(1023, 1_000_000_000), 0);
    assert_eq!(pieces_per_tick(1024, 1_000_000_000), 1);
    assert_eq!(pieces_per_tick(0, 1_000_000_000), 0);
    assert_eq!(pieces_per_tick(u64::MAX, 1), 18_014_398);
}

#[test]
fn default_params_are_as_documented() {
    let params = PeerParams::with_tracker(default_tracker_address());
    assert_eq!(params.tracker_addr, "ws://localhost:9010");
    assert_eq!(params.upload_bytes_per_second, 1_048_576);
    assert_eq!(params.max_datachannel_buffer_bytes, 2_097_152);
    assert_eq!(params.tick_interval, 100_000_000);
    assert_eq!(params.state_resend_interval, 10_000_000_000);
    assert_eq!(params.piece_resend_interval, 500_000_000);
    let sender = params.sender_params();
    assert_eq!(sender.num_pieces_to_be_sent, 102);
    assert_eq!(sender.max_buffer_bytes, Some(2_097_152));
    assert_eq!(sender.data_send_interval, 100_000_000);
    assert_eq!(sender.state_resend_interval, 10_000_000_000);
    assert_eq!(sender.piece_resend_interval, 500_000_000);
}

#[test]
fn time_subtraction_stops_at_the_origin() {
    assert_eq!(Time(10).saturating_sub(3), Time(7));
    assert_eq!(Time(10).saturating_sub(10), Time(0));
    assert_eq!(Time(10).saturating_sub(11), Time(0));
    assert_eq!(Time(10).checked_add(5), Some(Time(15)));
    assert_eq!(Time(u64::MAX).checked_add(1), None);
    assert!(Time(1) < Time(2));
}
