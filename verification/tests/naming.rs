use logroller::calendar::{DateTime, FixedOffset};
use logroller::meta::{dotted, LogRollerMeta};
use logroller::{Rotation, RotationAge, RotationSize};

fn at(secs: i64, offset: i32) -> DateTime {
    DateTime::from_timestamp(secs, 0, FixedOffset::east_opt(offset).unwrap()).unwrap()
}

fn meta(filename: &str) -> LogRollerMeta {
    LogRollerMeta::new("logs", filename)
}

fn name(meta: &LogRollerMeta, age: RotationAge, t: &DateTime) -> String {
    let path = meta.try_next_age_based_log_path(&age, t).unwrap();
    assert_eq!(path.directory, "logs");
    path.name
}

#[test]
fn log_files_are_named_for_their_period() {
    let m = meta("log");
    let t = at(1_743_537_300, 0);
    assert_eq!(name(&m, RotationAge::Minutely, &t), "log.2025-04-01-19-55");
    assert_eq!(name(&m, RotationAge::Hourly, &t), "log.2025-04-01-19");
    assert_eq!(name(&m, RotationAge::Daily, &t), "log.2025-04-01");
}

#[test]
fn names_go_by_local_time() {
    let m = meta("app.log");
    let t = at(1_743_537_300, 28800);
    assert_eq!(name(&m, RotationAge::Minutely, &t), "app.log.2025-04-02-03-55");
    let t = at(1_743_537_300, -72000);
    assert_eq!(name(&m, RotationAge::Hourly, &t), "app.log.2025-03-31-23");
}

#[test]
fn the_suffix_follows_the_stamp() {
    let mut m = meta("app.log");
    m.suffix = Some(String::from("error"));
    let t = at(1_743_537_300, 0);
    assert_eq!(name(&m, RotationAge::Hourly, &t), "app.log.2025-04-01-19.error");
}

#[test]
fn stamps_have_leading_zeros_and_leap_days() {
    let m = meta("a");
    // 2024-02-29 00:00, 2000-02-29, 1999-12-31 23:59, year 1 and year 987
    assert_eq!(name(&m, RotationAge::Daily, &at(1_709_164_800, 0)), "a.2024-02-29");
    assert_eq!(name(&m, RotationAge::Daily, &at(951_782_400, 0)), "a.2000-02-29");
    assert_eq!(name(&m, RotationAge::Minutely, &at(946_684_740, 0)), "a.1999-12-31-23-59");
    assert_eq!(name(&m, RotationAge::Daily, &at(-62_135_596_800, 0)), "a.0001-01-01");
    assert_eq!(name(&m, RotationAge::Daily, &at(-31020451200, 0)), "a.0987-01-01");
}

#[test]
fn percent_signs_are_strftime_specifiers() {
    let t = at(1_743_537_300, 0);
    assert_eq!(name(&meta("%j"), RotationAge::Daily, &t), "091.2025-04-01");
    assert_eq!(name(&meta("100%%"), RotationAge::Daily, &t), "100%.2025-04-01");
    assert!(meta("bad%Q").try_next_age_based_log_path(&RotationAge::Daily, &t).is_none());
    assert!(!meta("bad%Q").has_good_names());
    assert!(meta("app.log").has_good_names());
    let mut m = meta("bad%Q");
    m.rotation = Rotation::SizeBased(RotationSize::KB(1));
    assert!(m.has_good_names());
}

#[test]
fn the_next_log_path_is_that_of_the_instant() {
    let t = at(1_743_537_300, 0);
    let path = meta("log").get_next_age_based_log_path(&RotationAge::Daily, &t);
    assert_eq!((path.directory.as_str(), path.name.as_str()), ("logs", "log.2025-04-01"));
}

#[test]
fn the_current_log_path_follows_the_rotation() {
    let t = at(1_743_537_300, 0);
    let mut m = meta("log");
    assert_eq!(m.get_curr_log_path_at(&t).name, "log.2025-04-01");
    m.rotation = Rotation::AgeBased(RotationAge::Minutely);
    assert_eq!(m.get_curr_log_path_at(&t).name, "log.2025-04-01-19-55");
    m.rotation = Rotation::SizeBased(RotationSize::KB(1));
    assert_eq!(m.get_curr_log_path_at(&t).name, "log");
    assert_eq!(m.get_curr_log_path().name, "log");
}

#[test]
fn the_current_log_path_is_named_for_today() {
    let mut m = meta("log");
    m.time_zone = FixedOffset::east_opt(0).unwrap();
    let before = chrono::Utc::now().format("log.%Y-%m-%d").to_string();
    let path = m.get_curr_log_path();
    let after = chrono::Utc::now().format("log.%Y-%m-%d").to_string();
    assert!(path.name == before || path.name == after);
}

#[test]
fn names_sort_as_their_periods_follow() {
    let m = meta("log");
    let mut last = String::new();
    for t in [-62_135_596_800, -1, 0, 951_782_400, 1_743_537_300, 1_743_537_360, 253_402_300_799] {
        let this = name(&m, RotationAge::Minutely, &at(t, 0));
        assert!(last < this);
        last = this;
    }
}

#[test]
fn one_file_for_each_period() {
    let m = meta("log");
    let first = name(&m, RotationAge::Hourly, &at(1_743_534_000, 0));
    assert_eq!(first, name(&m, RotationAge::Hourly, &at(1_743_537_599, 0)));
    assert_ne!(first, name(&m, RotationAge::Hourly, &at(1_743_537_600, 0)));
    assert_ne!(first, name(&m, RotationAge::Hourly, &at(1_743_533_999, 0)));
}

#[test]
fn texts_are_joined_with_a_dot() {
    assert_eq!(dotted("app.log", "7"), "app.log.7");
    assert_eq!(dotted("", ""), ".");
}

#[test]
fn the_default_configuration() {
    let m = LogRollerMeta::new("dir", "file");
    assert_eq!(m.directory, "dir");
    assert_eq!(m.filename, "file");
    assert_eq!(m.rotation, Rotation::AgeBased(RotationAge::Daily));
    assert_eq!(m.compression, None);
    assert_eq!(m.max_keep_files, None);
    assert_eq!(m.suffix, None);
    assert_eq!(m.file_mode, None);
    assert!(!m.graceful_shutdown);
    assert_eq!(m.clone().filename, "file");
}
