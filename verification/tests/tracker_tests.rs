use m3u8_fetch::tracker::ProgressTracker;

#[test]
fn two_half_updates_reach_exactly_one_hundred_percent() {
    let mut t = ProgressTracker::new(1_000_000, 0);
    t.update(500_000, 500);
    assert_eq!(t.percent_tenths, 500);
    t.update(500_000, 900);
    assert_eq!(t.percent_tenths, 1000);
}

#[test]
fn update_renders_after_one_second() {
    let mut t = ProgressTracker::new(1_000_000, 0);
    assert_eq!(t.update(500_000, 800), None);
    let line = t.update(500_000, 3000).expect("cadence passed, must render");
    assert_eq!(
        line,
        "100.0%  [⣿⣿⣿⣿⣿⣿⣿⣿⣿⣿⣿⣿⣿⣿⣿] 15 | 333.3 kb/s | 3s | estimated 0min0s"
    );
    assert_eq!(t.incremental_read, 0);
    assert_eq!(t.timer_ms, 3000);
}

#[test]
fn update_below_cadence_only_accumulates() {
    let mut t = ProgressTracker::new(1000, 0);
    assert_eq!(t.update(10, 400), None);
    assert_eq!(t.update(20, 1000), None);
    assert_eq!(t.incremental_read, 30);
    assert_eq!(t.total_read, 30);
    assert_eq!(t.percent_tenths, 30);
}

#[test]
fn rate_switches_to_megabytes() {
    let mut t = ProgressTracker::new(100_000_000, 0);
    let line = t.update(30_000_000, 2000).expect("must render");
    // 30 MB over 2 s is 15000.0 KB/s, shown as megabytes.
    assert_eq!(
        line,
        " 30.0%  [⣿⣿⣿⣿···········] 4 |  15.0 mb/s | 2s | estimated 0min4s"
    );
}

#[test]
fn elapsed_over_a_minute_shows_minutes() {
    let mut t = ProgressTracker::new(1_000_000, 0);
    t.update(100_000, 500);
    let line = t.update(100_000, 90_000).expect("must render");
    // 200000 bytes in 90 s: window rate 2.2 KB/s; remaining 800000 bytes
    // at 2222 B/s average leaves 360 s.
    assert_eq!(
        line,
        " 20.0%  [⣿⣿⣿············] 3 |   2.2 kb/s | 1min30s | estimated 6min0s"
    );
}

#[test]
fn flush_renders_current_window() {
    let mut t = ProgressTracker::new(1000, 0);
    t.update(500, 800);
    let line = t.flush(2000);
    // Window of 2000 ms with 500 bytes: 0.2 KB/s, floor of the tenths.
    assert_eq!(
        line,
        " 50.0%  [⣿⣿⣿⣿⣿⣿⣿········] 7 |   0.2 kb/s | 2s | estimated 0min2s"
    );
}
