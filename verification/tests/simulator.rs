use ulpf::cli::simulator::{line_for, pause, source_by_id, sources, stream_rate};

#[test]
fn every_registered_source_is_found_by_its_id() {
    for s in sources() {
        assert_eq!(source_by_id(s.id).unwrap().file, s.file);
    }
    assert_eq!(source_by_id("snort").unwrap().label, "Snort IDS");
    assert!(source_by_id("nonesuch").is_none());
}

#[test]
fn rates_are_kept_in_bounds() {
    assert_eq!(stream_rate(0), 1);
    assert_eq!(stream_rate(500), 500);
    assert_eq!(stream_rate(1_000_000), 200_000);
}

#[test]
fn the_corpus_replays_in_a_loop() {
    assert_eq!(line_for(0, 3), 0);
    assert_eq!(line_for(7, 3), 1);
}

#[test]
fn a_stream_ahead_of_schedule_sleeps_at_most_200_ms() {
    // 10 per second: the 5th datagram is due at 500 ms.
    assert_eq!(pause(5, 10, 100_000_000), Some(200_000_000));
    assert_eq!(pause(5, 10, 450_000_000), Some(50_000_000));
    // Less than 2 ms ahead, or behind: no sleep.
    assert_eq!(pause(5, 10, 499_000_000), None);
    assert_eq!(pause(5, 10, 600_000_000), None);
}
