use logroller::calendar::{DateTime, FixedOffset, TimeOfDay, MAX_SECS, MIN_SECS};
use logroller::meta::LogRollerMeta;
use logroller::RotationAge;

fn at(secs: i64, nanos: u32, offset: i32) -> DateTime {
    DateTime::from_timestamp(secs, nanos, FixedOffset::east_opt(offset).unwrap()).unwrap()
}

fn next(secs: i64, nanos: u32, offset: i32, age: RotationAge) -> DateTime {
    let meta = LogRollerMeta::new("logs", "app.log");
    let base = at(secs, nanos, offset);
    assert!(base.is_advanceable(age));
    meta.next_time(base, age).unwrap()
}

#[test]
fn offsets_are_less_than_a_day() {
    assert_eq!(FixedOffset::east_opt(8 * 3600).unwrap().local_minus_utc(), 28800);
    assert_eq!(FixedOffset::east_opt(-86399).unwrap().local_minus_utc(), -86399);
    assert!(FixedOffset::east_opt(86400).is_none());
    assert!(FixedOffset::east_opt(-86400).is_none());
}

#[test]
fn instants_are_covered_by_the_calendar() {
    let utc = FixedOffset::east_opt(0).unwrap();
    assert!(DateTime::from_timestamp(MIN_SECS, 0, utc).is_some());
    assert!(DateTime::from_timestamp(MIN_SECS - 1, 0, utc).is_none());
    assert!(DateTime::from_timestamp(MAX_SECS, 999_999_999, utc).is_some());
    assert!(DateTime::from_timestamp(MAX_SECS + 1, 0, utc).is_none());
    assert!(DateTime::from_timestamp(0, 1_000_000_000, utc).is_none());
    assert_eq!(MIN_SECS, chrono::DateTime::<chrono::Utc>::MIN_UTC.timestamp());
    assert_eq!(MAX_SECS, chrono::DateTime::<chrono::Utc>::MAX_UTC.timestamp());
    let t = at(12, 34, 3600);
    assert_eq!(t.timestamp(), 12);
    assert_eq!(t.timestamp_subsec_nanos(), 34);
    assert_eq!(t.offset().local_minus_utc(), 3600);
}

#[test]
fn instants_are_compared_without_their_offsets() {
    assert!(at(10, 5, 0).has_reached(&at(10, 5, 3600)));
    assert!(at(10, 6, 0).has_reached(&at(10, 5, 0)));
    assert!(!at(10, 4, 0).has_reached(&at(10, 5, 0)));
    assert!(at(11, 0, 0).has_reached(&at(10, 999_999_999, 0)));
    assert!(!at(9, 999_999_999, 0).has_reached(&at(10, 0, 0)));
}

#[test]
fn times_of_day_are_those_of_a_clock() {
    assert_eq!(
        TimeOfDay::from_hms_opt(23, 59, 59),
        Some(TimeOfDay { hour: 23, minute: 59, second: 59 })
    );
    assert_eq!(TimeOfDay::from_hms_opt(24, 0, 0), None);
    assert_eq!(TimeOfDay::from_hms_opt(0, 60, 0), None);
    assert_eq!(TimeOfDay::from_hms_opt(0, 0, 60), None);
}

#[test]
fn next_rotation_begins_the_next_period() {
    // 2025-04-01 19:55:07.5 UTC
    let t = 1_743_537_307;
    assert_eq!(next(t, 500_000_000, 0, RotationAge::Minutely), at(1_743_537_360, 0, 0));
    assert_eq!(next(t, 500_000_000, 0, RotationAge::Hourly), at(1_743_537_600, 0, 0));
    assert_eq!(next(t, 500_000_000, 0, RotationAge::Daily), at(1_743_552_000, 0, 0));
}

#[test]
fn next_rotation_after_a_boundary_is_a_whole_period_away() {
    assert_eq!(next(1_743_552_000, 0, 0, RotationAge::Daily), at(1_743_638_400, 0, 0));
    assert_eq!(next(1_743_552_000, 0, 0, RotationAge::Hourly), at(1_743_555_600, 0, 0));
    assert_eq!(next(1_743_552_000, 0, 0, RotationAge::Minutely), at(1_743_552_060, 0, 0));
}

#[test]
fn next_rotation_goes_by_local_time() {
    // 2025-04-01 19:55:07 UTC is 2025-04-02 03:55:07 at UTC+8, 15:25:07 at UTC-4:30
    let t = 1_743_537_307;
    assert_eq!(next(t, 0, 28800, RotationAge::Daily), at(1_743_609_600, 0, 28800));
    assert_eq!(next(t, 0, -16200, RotationAge::Hourly), at(1_743_539_400, 0, -16200));
    assert_eq!(next(t, 0, -16200, RotationAge::Daily), at(1_743_568_200, 0, -16200));
}

#[test]
fn next_rotation_before_1970() {
    assert_eq!(next(-1, 0, 0, RotationAge::Minutely), at(0, 0, 0));
    assert_eq!(next(-61, 0, 0, RotationAge::Minutely), at(-60, 0, 0));
    assert_eq!(next(-90_000, 0, 0, RotationAge::Daily), at(-86_400, 0, 0));
}

#[test]
fn the_last_period_of_the_calendar_has_no_next() {
    assert!(at(MAX_SECS - 86_400, 0, 0).is_advanceable(RotationAge::Daily));
    assert!(!at(MAX_SECS - 86_399, 0, 0).is_advanceable(RotationAge::Daily));
    assert!(!at(MAX_SECS - 86_400, 0, 1).is_advanceable(RotationAge::Daily));
    assert!(!at(MIN_SECS, 0, -86_399).is_advanceable(RotationAge::Minutely));
}

#[test]
fn the_time_of_day_is_replaced() {
    let meta = LogRollerMeta::new("logs", "app.log");
    // 2025-04-01 23:30:00 UTC is 2025-04-02 07:30:00 at UTC+8
    let base = at(1_743_550_200, 123, 28800);
    let noon = TimeOfDay::from_hms_opt(12, 34, 56).unwrap();
    // 2025-04-02 12:34:56 at UTC+8 is 04:34:56 UTC
    assert_eq!(meta.replace_time(base, noon), at(1_743_568_496, 0, 28800));
}

#[test]
fn now_is_the_time_of_the_clock_in_the_time_zone() {
    let mut meta = LogRollerMeta::new("logs", "app.log");
    meta.time_zone = FixedOffset::east_opt(-3600).unwrap();
    let before = chrono::Utc::now().timestamp();
    let now = meta.now();
    let after = chrono::Utc::now().timestamp();
    assert!(before <= now.timestamp() && now.timestamp() <= after);
    assert_eq!(now.offset().local_minus_utc(), -3600);
}

#[test]
fn the_default_time_zone_is_local() {
    let meta = LogRollerMeta::new("logs", "app.log");
    assert_eq!(
        meta.time_zone.local_minus_utc(),
        chrono::Local::now().offset().local_minus_utc()
    );
}
