use ce_crash::calendar::date_of_day;
use ce_crash::clock::{stamp_ms, unix_ms};
use ce_crash::seconds::push_seconds;
use ce_crash::{fmt_datetime, fmt_time, now_ms};
use std::time::{Duration, SystemTime, UNIX_EPOCH};

fn seconds(ms: u64) -> String {
    let mut out = String::new();
    push_seconds(&mut out, ms);
    out
}

fn by_doubles(ms: u64) -> String {
    format!("{:.1}", ms as f64 / 1000.0)
}

#[test]
fn datetime_render() {
    // 2026-07-24 00:00:00 UTC = 1784851200s
    assert_eq!(fmt_datetime(1_784_851_200_000), "2026-07-24 00:00:00 UTC");
    assert_eq!(fmt_datetime(0), "1970-01-01 00:00:00 UTC");
}

#[test]
fn datetimes_at_the_edges() {
    assert_eq!(fmt_datetime(951_868_799_000), "2000-02-29 23:59:59 UTC");
    assert_eq!(fmt_datetime(951_868_799_999), "2000-02-29 23:59:59 UTC");
    assert_eq!(fmt_datetime(951_868_800_000), "2000-03-01 00:00:00 UTC");
    assert_eq!(fmt_datetime(4_107_542_399_000), "2100-02-28 23:59:59 UTC");
    assert_eq!(fmt_datetime(4_107_542_400_000), "2100-03-01 00:00:00 UTC");
    assert_eq!(fmt_datetime(1_709_251_199_000), "2024-02-29 23:59:59 UTC");
    assert_eq!(fmt_datetime(1_704_067_199_000), "2023-12-31 23:59:59 UTC");
    assert_eq!(fmt_datetime(253_402_300_799_000), "9999-12-31 23:59:59 UTC");
    assert_eq!(fmt_datetime(253_402_300_800_000), "10000-01-01 00:00:00 UTC");
    assert_eq!(fmt_datetime(u64::MAX), "584556019-04-03 14:25:51 UTC");
}

#[test]
fn days_follow_each_other() {
    let lengths = [31u64, 28, 31, 30, 31, 30, 31, 31, 30, 31, 30, 31];
    let (mut year, mut month, mut day) = (1970u64, 1u64, 1u64);
    for n in 0..200_000u64 {
        let d = date_of_day(n);
        assert_eq!((d.year, d.month, d.day), (year, month, day));
        let leap = year % 4 == 0 && (year % 100 != 0 || year % 400 == 0);
        let last = lengths[(month - 1) as usize] + if month == 2 && leap { 1 } else { 0 };
        day += 1;
        if day > last {
            day = 1;
            month += 1;
        }
        if month > 12 {
            month = 1;
            year += 1;
        }
    }
}

#[test]
fn times_of_day() {
    assert_eq!(fmt_time(0), "00:00:00");
    assert_eq!(fmt_time(86_399_999), "23:59:59");
    assert_eq!(fmt_time(86_400_000), "00:00:00");
    assert_eq!(fmt_time(3_723_000), "01:02:03");
    assert_eq!(fmt_time(u64::MAX), "14:25:51");
}

#[test]
fn seconds_are_those_of_doubles() {
    assert_eq!(seconds(2_000), "2.0");
    assert_eq!(seconds(49), "0.0");
    assert_eq!(seconds(50), "0.1");
    assert_eq!(seconds(250), "0.2");
    assert_eq!(seconds(350), "0.3");
    assert_eq!(seconds(750), "0.8");
    for ms in 0..60_000u64 {
        assert_eq!(seconds(ms), by_doubles(ms));
    }
}

#[test]
fn half_tenths_are_those_of_doubles() {
    let mut ms: u64 = 50;
    for _ in 0..40_000 {
        assert_eq!(seconds(ms), by_doubles(ms));
        // Odd multiples of 50 all over the range.
        ms = ms.wrapping_mul(6_364_136_223_846_793_005).wrapping_add(1_442_695_040_888_963_407);
        ms = (ms >> (ms % 48)) / 100 * 100 + 50;
    }
}

#[test]
fn large_seconds_are_those_of_doubles() {
    for shift in 0..64 {
        for near in 0..200u64 {
            let at = 1u64 << shift;
            assert_eq!(seconds(at.wrapping_add(near)), by_doubles(at.wrapping_add(near)));
            assert_eq!(seconds(at.wrapping_sub(near)), by_doubles(at.wrapping_sub(near)));
        }
    }
    let mut ms: u64 = 1;
    for _ in 0..20_000 {
        ms = ms.wrapping_mul(6_364_136_223_846_793_005).wrapping_add(1_442_695_040_888_963_407);
        assert_eq!(seconds(ms), by_doubles(ms));
    }
}

#[test]
fn stamps() {
    assert_eq!(stamp_ms(None), 0);
    assert_eq!(stamp_ms(Some(7)), 7);
    assert_eq!(stamp_ms(Some(u64::MAX as u128)), u64::MAX);
    assert_eq!(stamp_ms(Some(u64::MAX as u128 + 6)), 5);
}

#[test]
fn milliseconds_since_the_epoch() {
    assert_eq!(unix_ms(&UNIX_EPOCH), 0);
    assert_eq!(unix_ms(&(UNIX_EPOCH + Duration::from_micros(1_784_900_000_123_999))), 1_784_900_000_123);
    assert_eq!(unix_ms(&(UNIX_EPOCH - Duration::from_secs(5))), 0);
    let before = unix_ms(&SystemTime::now());
    let now = now_ms();
    assert!(before <= now && now - before < 20_000);
}

#[test]
fn datetimes_sort_as_moments() {
    let day: u64 = 86_400_000;
    let end: u64 = 253_402_300_800_000;
    let mut moments: Vec<u64> = vec![0, 999, 1_000, 9_999, 10_000, 59_999, 60_000, 3_599_999];
    for at in [day, 31 * day, 273 * day, 365 * day, 951_868_800_000, 946_684_800_000] {
        moments.extend([at - 1, at, at + 1_000, at + 36_000_000]);
    }
    moments.extend([end - 1_001, end - 1]);
    for &a in &moments {
        assert_eq!(fmt_datetime(a).len(), 23);
        for &b in &moments {
            assert_eq!(fmt_datetime(a) < fmt_datetime(b), a / 1000 < b / 1000);
            assert_eq!(fmt_datetime(a) == fmt_datetime(b), a / 1000 == b / 1000);
        }
    }
    // From the year 10000 on there is one more digit, and the order is lost.
    assert!(fmt_datetime(end) < fmt_datetime(0));
}

#[test]
fn the_clock_runs() {
    let a = now_ms();
    let b = now_ms();
    assert!(a > 1_600_000_000_000);
    assert!(b >= a && b - a < 20_000);
}

#[test]
fn seconds_are_rounded_to_the_nearest_tenth() {
    assert_eq!(seconds(1_234), "1.2");
    assert_eq!(seconds(1_251), "1.3");
    assert_eq!(seconds(59_949), "59.9");
    assert_eq!(seconds(59_951), "60.0");
    assert_eq!(seconds(4_503_599_627_370_449), "4503599627370.4");
}
