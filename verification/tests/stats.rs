use sailor::stats::{Stats, FPS_SAMPLES};

#[test]
fn fresh_statistics_hold_two_millisecond_frames() {
    let stats = Stats::new();
    assert_eq!(stats.get_times().len(), FPS_SAMPLES);
    assert!(stats.get_times().iter().all(|t| *t == 2_000_000));
    assert_eq!(stats.get_average(), 2_000_000);
    assert!(stats.series().is_empty());
}

#[test]
fn average_covers_about_the_last_second() {
    let mut stats = Stats::new();
    stats.capture_frame(16_000_000);
    assert_eq!(stats.get_times().len(), FPS_SAMPLES);
    assert_eq!(*stats.get_times().back().unwrap(), 16_000_000);
    // 16 ms plus 492 frames of 2 ms reach one second over 493 frames.
    assert_eq!(stats.get_average(), 1_000_000_000 / 493);
}

#[test]
fn average_of_one_long_frame_is_that_frame() {
    let mut stats = Stats::new();
    stats.capture_frame(3_000_000_000);
    assert_eq!(stats.get_average(), 3_000_000_000);
}

#[test]
fn series_keep_ten_seconds_of_samples() {
    let mut stats = Stats::new();
    stats.record("cpu.frame", 0, 5);
    stats.record("gpu.map", 1, 3);
    stats.record("cpu.frame", 4_000_000_000, 9);
    {
        let series = stats.series();
        assert_eq!(series.len(), 2);
        assert_eq!(series[0].name, "cpu.frame");
        assert_eq!(series[1].name, "gpu.map");
        assert_eq!(series[0].durations(), vec![5, 9]);
        assert_eq!(series[0].average(), 7);
        assert_eq!(series[0].max(), 9);
    }
    stats.record("cpu.frame", 11_000_000_000, 7);
    let series = stats.series();
    assert_eq!(series[0].durations(), vec![9, 7]);
    assert!(!series[1].is_empty());
    assert_eq!(series[1].max(), 3);
}

#[test]
fn a_sample_exactly_ten_seconds_old_stays() {
    let mut stats = Stats::new();
    stats.record("s", 0, 1);
    stats.record("s", 10_000_000_000, 2);
    assert_eq!(stats.series()[0].durations(), vec![1, 2]);
    stats.record("s", 10_000_000_001, 3);
    assert_eq!(stats.series()[0].durations(), vec![2, 3]);
}

#[test]
fn average_of_uneven_samples_truncates() {
    let mut stats = Stats::new();
    stats.record("s", 0, 1);
    stats.record("s", 1, 2);
    stats.record("s", 2, 2);
    assert_eq!(stats.series()[0].average(), 1);
}

#[test]
fn an_average_too_long_for_a_duration_is_refused() {
    let mut stats = Stats::new();
    stats.capture_frame(u128::MAX);
    assert_eq!(stats.try_get_average(), None);
    let mut stats = Stats::new();
    stats.capture_frame(sailor::stats::DURATION_MAX_NANOS);
    assert_eq!(stats.try_get_average(), Some(sailor::stats::DURATION_MAX_NANOS));
    assert_eq!(stats.frames(), 1);
}

#[test]
fn the_latest_sample_time_is_kept() {
    let mut stats = Stats::new();
    assert_eq!(stats.latest(), 0);
    stats.record("a", 5, 1);
    stats.record("b", 9, 1);
    assert_eq!(stats.latest(), 9);
}
