use ulpf::cli::replay::{progress_due, replay_pause, replay_record};

#[test]
fn line_endings_are_stripped_and_blank_lines_skipped() {
    assert_eq!(replay_record(b"<13>Jan 1 host app: hi\r\n").as_deref(), Some(&b"<13>Jan 1 host app: hi"[..]));
    assert_eq!(replay_record(b"a b\n\n\r").as_deref(), Some(&b"a b"[..]));
    assert_eq!(replay_record(b"  keep  ").as_deref(), Some(&b"  keep  "[..]));
    assert_eq!(replay_record(b" \t \r\n"), None);
    assert_eq!(replay_record(b""), None);
    assert_eq!(replay_record(b"\n"), None);
}

#[test]
fn replay_sleeps_only_when_two_milliseconds_ahead() {
    // 1000 EPS: one record per millisecond.
    assert_eq!(replay_pause(10, 1000, 0), Some(10_000_000));
    assert_eq!(replay_pause(10, 1000, 8_500_000), None);
    assert_eq!(replay_pause(10, 1000, 8_000_000), Some(2_000_000));
    assert_eq!(replay_pause(10, 1000, 20_000_000), None);
    // A zero rate means one per second, and there is no upper cap.
    assert_eq!(replay_pause(5, 0, 0), Some(5_000_000_000));
}

#[test]
fn progress_is_reported_once_per_second_of_records() {
    assert!(progress_due(500, 500));
    assert!(!progress_due(499, 500));
    assert!(progress_due(1000, 500));
    assert!(progress_due(7, 0));
}
