use gtlv_core::perf::PerfTimer;
use gtlv_core::types::PerfTimings;
use std::time::{Duration, Instant};

fn busy_wait(d: Duration) {
    let begin = Instant::now();
    while begin.elapsed() < d {}
}

#[test]
fn repeated_spans_accumulate() {
    let mut timer = PerfTimer::new(true);
    for _ in 0..3 {
        timer.start("loop");
        busy_wait(Duration::from_millis(5));
        timer.stop("loop");
    }
    assert!(timer.elapsed_ms("loop") >= 12, "spans of a stage add up");
}

#[test]
fn disabled_timer_reports_zero() {
    let mut timer = PerfTimer::new(false);
    timer.start("x");
    busy_wait(Duration::from_millis(2));
    timer.stop("x");
    assert_eq!(timer.elapsed_ms("x"), 0);
}

#[test]
fn unknown_stage_reports_zero() {
    assert_eq!(PerfTimer::new(true).elapsed_ms("never-started"), 0);
}

#[test]
fn segment_spans_sum_in_milliseconds() {
    let mut timer = PerfTimer::new(true);
    timer.start("crop_resize");
    timer.stop_with_span("crop_resize", 1_500_000);
    timer.start("crop_resize");
    timer.stop_with_span("crop_resize", 2_600_000);
    // 4.1 ms in all: whole milliseconds of the sum, not the sum of whole milliseconds
    assert_eq!(timer.elapsed_ms("crop_resize"), 4);
}

#[test]
fn span_for_a_stage_never_started_is_dropped() {
    let mut timer = PerfTimer::new(true);
    timer.stop_with_span("ghost", 9_000_000);
    assert_eq!(timer.elapsed_ms("ghost"), 0);
}

#[test]
fn disabled_timer_ignores_spans() {
    let mut timer = PerfTimer::new(false);
    timer.start("x");
    timer.stop_with_span("x", 5_000_000);
    assert_eq!(timer.elapsed_ms("x"), 0);
}

#[test]
fn restart_keeps_accumulated_time() {
    let mut timer = PerfTimer::new(true);
    timer.start("s");
    timer.stop_with_span("s", 7_000_000);
    timer.start("s");
    assert_eq!(timer.elapsed_ms("s"), 7);
}

#[test]
fn second_stop_adds_nothing() {
    let mut timer = PerfTimer::new(true);
    timer.start("s");
    timer.stop_with_span("s", 5_000_000);
    timer.stop_with_span("s", 9_000_000);
    assert_eq!(timer.elapsed_ms("s"), 5);
}

#[test]
fn second_clock_stop_adds_nothing() {
    let mut timer = PerfTimer::new(true);
    timer.start("s");
    timer.stop("s");
    let first = timer.elapsed_ms("s");
    busy_wait(Duration::from_millis(3));
    timer.stop("s");
    assert_eq!(timer.elapsed_ms("s"), first);
}

#[test]
fn stages_are_kept_apart() {
    let mut timer = PerfTimer::new(true);
    timer.start("a");
    timer.start("b");
    timer.stop_with_span("b", 11_000_000);
    timer.stop_with_span("a", 3_000_000);
    assert_eq!(timer.elapsed_ms("a"), 3);
    assert_eq!(timer.elapsed_ms("b"), 11);
}

#[test]
fn span_sum_saturates() {
    let mut timer = PerfTimer::new(true);
    timer.start("s");
    timer.stop_with_span("s", u128::MAX);
    timer.start("s");
    timer.stop_with_span("s", 10);
    assert_eq!(timer.elapsed_ms("s"), ((u128::MAX / 1_000_000) as i64));
}

#[test]
fn timings_read_the_four_stages() {
    let mut timer = PerfTimer::new(true);
    timer.start("preprocess");
    timer.stop_with_span("preprocess", 2_000_000);
    timer.start("siamese_infer");
    timer.stop_with_span("siamese_infer", 30_000_000);
    let t = PerfTimings::from_timer(&timer, 99);
    assert_eq!(t.preprocess_ms, 2);
    assert_eq!(t.yolo_infer_ms, 0);
    assert_eq!(t.crop_resize_ms, 0);
    assert_eq!(t.siamese_infer_ms, 30);
    assert_eq!(t.total_ms, 99);
}

#[test]
fn restart_measures_from_the_latest_start() {
    let t0 = Instant::now();
    let mut timer = PerfTimer::new(true);
    timer.start_at("s", t0);
    timer.start_at("s", t0 + Duration::from_millis(5));
    timer.stop_at("s", t0 + Duration::from_millis(8));
    assert_eq!(timer.elapsed_ms("s"), 3);
}

#[test]
fn clock_segments_add_up() {
    let t0 = Instant::now();
    let ms = |n: u64| t0 + Duration::from_millis(n);
    let mut timer = PerfTimer::new(true);
    timer.start_at("s", ms(0));
    timer.stop_at("s", ms(2));
    timer.start_at("s", ms(10));
    timer.stop_at("s", ms(14));
    timer.stop_at("s", ms(40));
    assert_eq!(timer.elapsed_ms("s"), 6);
}

#[test]
fn stop_before_start_adds_nothing() {
    let t0 = Instant::now() + Duration::from_millis(50);
    let mut timer = PerfTimer::new(true);
    timer.start_at("s", t0);
    timer.stop_at("s", t0 - Duration::from_millis(20));
    assert_eq!(timer.elapsed_ms("s"), 0);
}
