use crossbeam_channel::{bounded, Receiver, Sender};
use logroller::calendar::{DateTime, FixedOffset};
use logroller::error::LogPath;
use logroller::rollover::{FileAction, FileStep};
use logroller::thread_pool::{PoolState, TaskState};
use logroller::{
    Compression, LogRoller, LogRollerBuilder, LogRollerError, Rotation, RotationAge, RotationSize,
    TimeZone,
};

// 2025-04-01 19:55:00 UTC
const NOW: i64 = 1_743_537_300;

fn at(secs: i64) -> DateTime {
    DateTime::from_timestamp(secs, 0, FixedOffset::east_opt(0).unwrap()).unwrap()
}

fn builder(rotation: Rotation) -> LogRollerBuilder {
    LogRollerBuilder::new("logs", "app.log").time_zone(TimeZone::UTC).rotation(rotation)
}

fn start(builder: LogRollerBuilder, names: &[&str], size: Option<u64>) -> LogRoller {
    let names: Vec<String> = names.iter().map(|s| s.to_string()).collect();
    builder.build_at(&names, size, &at(NOW), &at(NOW)).unwrap()
}

fn by_size(bytes: u64) -> LogRollerBuilder {
    builder(Rotation::SizeBased(RotationSize::Bytes(bytes)))
}

fn log_path(name: &str) -> LogPath {
    LogPath { directory: String::from("logs"), name: name.to_string() }
}

/// The two ends of the channel on which a task tells its end.
fn task() -> (Sender<()>, Receiver<()>) {
    bounded(1)
}

/// The channel of a task that has ended.
fn ended() -> Receiver<()> {
    let (tx, rx) = task();
    tx.send(()).unwrap();
    rx
}

fn name(path: Option<LogPath>) -> Option<String> {
    path.map(|p| p.name)
}

#[test]
fn the_builder_keeps_what_is_chosen() {
    let b = LogRollerBuilder::new("dir", "file")
        .time_zone(TimeZone::Fix(FixedOffset::east_opt(7200).unwrap()))
        .rotation(Rotation::AgeBased(RotationAge::Hourly))
        .compression(Compression::XZ(6))
        .max_keep_files(24)
        .suffix(String::from("error"))
        .file_mode(0o644)
        .graceful_shutdown(true);
    let m = b.meta();
    assert_eq!(m.directory, "dir");
    assert_eq!(m.filename, "file");
    assert_eq!(m.time_zone.local_minus_utc(), 7200);
    assert_eq!(m.rotation, Rotation::AgeBased(RotationAge::Hourly));
    assert_eq!(m.compression, Some(Compression::XZ(6)));
    assert_eq!(m.max_keep_files, Some(24));
    assert_eq!(m.suffix.as_deref(), Some("error"));
    assert_eq!(m.file_mode, Some(0o644));
    assert!(m.graceful_shutdown);
}

#[test]
fn the_last_choice_counts() {
    let b = LogRollerBuilder::new("dir", "file").max_keep_files(3).max_keep_files(5);
    assert_eq!(b.meta().max_keep_files, Some(5));
    let b = b.time_zone(TimeZone::UTC);
    assert_eq!(b.meta().time_zone.local_minus_utc(), 0);
    let b = b.time_zone(TimeZone::Local);
    assert_eq!(
        b.meta().time_zone.local_minus_utc(),
        chrono::Local::now().offset().local_minus_utc()
    );
    assert_eq!(b.meta().max_keep_files, Some(5));
}

#[test]
fn a_roller_starts_with_what_is_in_the_directory() {
    let r = start(by_size(100), &["app.log", "app.log.2", "app.log.4.gz"], Some(42));
    assert_eq!(r.state().next_size_based_index, 5);
    assert_eq!(r.state().curr_file_size_bytes, 42);
    assert_eq!(r.state().curr_file_path.name, "app.log");
    assert_eq!(r.state().next_age_based_time, at(1_743_552_000));
    let r = start(by_size(100), &[], None);
    assert_eq!(r.state().next_size_based_index, 1);
    assert_eq!(r.state().curr_file_size_bytes, 0);
}

#[test]
fn the_first_number_is_within_the_limit() {
    let r = start(by_size(100).max_keep_files(3), &["app.log.7"], None);
    assert_eq!(r.state().next_size_based_index, 3);
    let r = start(by_size(100).max_keep_files(0), &[], None);
    assert_eq!(r.state().next_size_based_index, 0);
}

#[test]
fn an_age_based_roller_starts_in_its_period() {
    let hourly = builder(Rotation::AgeBased(RotationAge::Hourly)).suffix(String::from("error"));
    let r = start(hourly, &[], None);
    assert_eq!(r.state().curr_file_path.name, "app.log.2025-04-01-19.error");
    assert_eq!(r.state().next_age_based_time, at(1_743_537_600));
}

#[test]
fn xz_levels_go_up_to_nine() {
    let none = Vec::new();
    assert!(by_size(1).compression(Compression::XZ(9)).build(&none, None).is_ok());
    match by_size(1).compression(Compression::XZ(10)).build(&none, None) {
        Err(LogRollerError::InvalidXZCompressionLevel { level }) => assert_eq!(level, 10),
        other => panic!("{:?}", other),
    }
    assert!(matches!(
        by_size(1).compression(Compression::XZ(10)).build_at(&none, None, &at(NOW), &at(NOW)),
        Err(LogRollerError::InvalidXZCompressionLevel { level: 10 })
    ));
}

#[test]
fn a_name_that_names_no_file_is_refused() {
    let bad = LogRollerBuilder::new("logs", "bad%Q");
    match bad.build(&Vec::new(), None) {
        Err(LogRollerError::GetNextFilePathError(path)) => assert_eq!(path.name, "bad%Q"),
        other => panic!("{:?}", other),
    }
}

#[test]
fn a_roller_that_is_built_now_rotates_at_the_next_midnight() {
    let before = chrono::Utc::now().timestamp();
    let r = builder(Rotation::AgeBased(RotationAge::Daily)).build(&Vec::new(), None).unwrap();
    let next = r.state().next_age_based_time.timestamp();
    assert_eq!(next % 86_400, 0);
    assert!(next > before && next <= chrono::Utc::now().timestamp() + 86_400);
}

#[test]
fn the_log_is_rotated_at_its_threshold() {
    let mut r = start(by_size(100), &[], Some(40));
    assert_eq!(name(r.after_write(59)), None);
    assert_eq!(r.state().curr_file_size_bytes, 99);
    let due = r.after_write(1);
    assert_eq!(name(due), Some(String::from("app.log.1")));
    r.finish_rollover(log_path("app.log.1"), Ok(ended())).unwrap();
    assert_eq!(r.state().curr_file_size_bytes, 0);
    assert_eq!(r.state().next_size_based_index, 2);
    assert_eq!(r.state().curr_file_path.name, "app.log");
    assert_eq!(name(r.after_write(99)), None);
    assert_eq!(name(r.after_write(1)), Some(String::from("app.log.1")));
}

#[test]
fn the_next_number_stays_within_the_limit() {
    let mut r = start(by_size(1).max_keep_files(3), &[], None);
    for expected in [2, 3, 3, 3] {
        r.finish_rollover(log_path("app.log.1"), Ok(ended())).unwrap();
        assert_eq!(r.state().next_size_based_index, expected);
    }
}

#[test]
fn the_log_is_rotated_when_its_period_is_over() {
    let mut r = start(builder(Rotation::AgeBased(RotationAge::Minutely)), &[], None);
    assert_eq!(r.state().curr_file_path.name, "app.log.2025-04-01-19-55");
    assert_eq!(name(r.after_write_at(10, TaskState::Finished, &at(NOW + 59))), None);
    let due = r.after_write_at(10, TaskState::Finished, &at(NOW + 60)).unwrap();
    assert_eq!(due.name, "app.log.2025-04-01-19-56");
    r.finish_rollover_at(due, Ok(ended()), &at(NOW + 60)).unwrap();
    assert_eq!(r.state().curr_file_path.name, "app.log.2025-04-01-19-56");
    assert_eq!(r.state().curr_file_size_bytes, 0);
    assert_eq!(r.state().next_age_based_time, at(NOW + 120));
    assert_eq!(name(r.after_write_at(10, TaskState::Finished, &at(NOW + 119))), None);
}

#[test]
fn a_late_rotation_goes_to_the_period_that_was_due() {
    let mut r = start(builder(Rotation::AgeBased(RotationAge::Hourly)), &[], None);
    let late = at(NOW + 5 * 3600);
    let due = r.after_write_at(10, TaskState::Finished, &late).unwrap();
    assert_eq!(due.name, "app.log.2025-04-01-20");
    r.finish_rollover_at(due, Ok(ended()), &late).unwrap();
    // 2025-04-02 01:00
    assert_eq!(r.state().next_age_based_time, at(1_743_555_600));
    assert_eq!(
        name(r.after_write_at(10, TaskState::Finished, &at(1_743_555_600))),
        Some(String::from("app.log.2025-04-02-01"))
    );
}

#[test]
fn no_rotation_while_the_last_one_is_processed() {
    let mut r = start(by_size(10), &[], None);
    let (tx, rx) = task();
    assert!(r.after_write(10).is_some());
    r.finish_rollover(log_path("app.log.1"), Ok(rx)).unwrap();
    assert!(r.after_write(10).is_none());
    assert_eq!(r.state().curr_file_size_bytes, 10);
    tx.send(()).unwrap();
    assert!(r.after_write(0).is_some());
    assert!(r.after_write(0).is_none());
    drop(tx);
    assert!(r.after_write(0).is_some());
}

#[test]
fn a_task_that_goes_away_does_not_hold_up_rotation() {
    let mut r = start(by_size(10), &[], None);
    let (tx, rx) = task();
    r.finish_rollover(log_path("app.log.1"), Ok(rx)).unwrap();
    assert!(r.after_write(10).is_none());
    drop(tx);
    assert!(r.after_write(0).is_some());
}

#[test]
fn what_is_seen_of_the_last_rotation_decides() {
    let mut r = start(by_size(10), &[], None);
    assert!(r.after_write_at(10, TaskState::Running, &at(NOW)).is_some());
    r.finish_rollover_at(log_path("app.log.1"), Ok(ended()), &at(NOW)).unwrap();
    assert!(r.after_write_at(10, TaskState::Running, &at(NOW)).is_none());
    assert!(r.after_write_at(0, TaskState::Finished, &at(NOW)).is_some());
}

#[test]
fn a_rotation_follows_the_plan_of_its_configuration() {
    let r = start(by_size(10), &["app.log.1"], None);
    let plan = r.begin_rollover(PoolState::Ready, log_path("app.log.1")).unwrap().unwrap();
    match plan.action() {
        FileAction::Perform { step: FileStep::Submit { path } } => {
            assert_eq!(path.name, "app.log.1")
        }
        other => panic!("{:?}", other),
    }
    let r = start(builder(Rotation::AgeBased(RotationAge::Daily)), &[], None);
    let plan = r.begin_rollover(PoolState::Ready, log_path("app.log.2025-04-02")).unwrap().unwrap();
    match plan.action() {
        FileAction::Perform { step: FileStep::Submit { path } } => {
            assert_eq!(path.name, "app.log.2025-04-01")
        }
        other => panic!("{:?}", other),
    }
}

#[test]
fn a_rotation_is_put_off_where_the_pool_is_full() {
    let r = start(by_size(10), &[], None);
    assert!(r.begin_rollover(PoolState::Full, log_path("app.log.1")).unwrap().is_none());
    let message = r
        .begin_rollover(PoolState::Unavailable(String::from("no threads")), log_path("app.log.1"))
        .unwrap_err();
    assert_eq!(message, "Failed to initialize rotation worker pool: no threads");
}

#[test]
fn a_rotation_that_is_put_off_stays_due() {
    let mut r = start(by_size(10), &[], None);
    assert!(r.after_write(10).is_some());
    r.finish_rollover(log_path("app.log.1"), Err(LogRollerError::RotationQueueFull)).unwrap();
    assert_eq!(r.state().curr_file_size_bytes, 10);
    assert_eq!(r.state().next_size_based_index, 1);
    assert_eq!(name(r.after_write(5)), Some(String::from("app.log.1")));
}

#[test]
fn a_rotation_that_fails_leaves_the_roller_as_it_was() {
    let mut r = start(builder(Rotation::AgeBased(RotationAge::Daily)), &[], None);
    let failed = LogRollerError::FileIOError(String::from("disk full"));
    match r.finish_rollover(log_path("new"), Err(failed)) {
        Err(LogRollerError::FileIOError(message)) => assert_eq!(message, "disk full"),
        other => panic!("{:?}", other),
    }
    assert_eq!(r.state().curr_file_path.name, "app.log.2025-04-01");
    assert!(r.flush().is_none());
}

#[test]
fn a_log_that_is_not_due_is_not_rotated_after_a_write() {
    // a time zone in which it is about noon, so that no day ends meanwhile
    let noon = 43_200 - chrono::Utc::now().timestamp().rem_euclid(86_400) as i32;
    let zone = TimeZone::Fix(FixedOffset::east_opt(noon).unwrap());
    let daily = builder(Rotation::AgeBased(RotationAge::Daily)).time_zone(zone);
    let mut r = daily.build(&Vec::new(), None).unwrap();
    let next = r.state().next_age_based_time.timestamp();
    let file = r.state().curr_file_path.name.clone();
    assert_eq!(name(r.after_write(1_000_000)), None);
    // nor once the processing of a rotated file has ended
    r.finish_rollover(log_path("new"), Ok(ended())).unwrap();
    assert_eq!(name(r.after_write(7)), None);
    assert_eq!(r.state().next_age_based_time.timestamp(), next);
    assert_eq!(r.state().curr_file_size_bytes, 7);
    assert_eq!(r.state().curr_file_path.name, "new");
    assert!(file.starts_with("app.log.2"));
}

#[test]
fn age_based_rotation_after_a_write_goes_by_the_clock() {
    let daily = || builder(Rotation::AgeBased(RotationAge::Daily));
    // 2999-01-01 00:00:00 UTC
    let far = at(32_472_144_000);
    let mut r = daily().build_at(&Vec::new(), None, &far, &far).unwrap();
    assert_eq!(name(r.after_write(1)), None);
    assert_eq!(name(LogRoller::should_rollover(r.meta(), r.state())), None);
    let mut r = start(daily(), &[], None);
    let scheduled = Some(String::from("app.log.2025-04-02"));
    assert_eq!(name(r.after_write(1)), scheduled);
    assert_eq!(name(LogRoller::should_rollover(r.meta(), r.state())), scheduled);
    // but not while the file that was rotated last is being processed
    let mut r = start(daily(), &[], None);
    let (running, rx) = task();
    r.finish_rollover_at(log_path("new"), Ok(rx), &at(NOW)).unwrap();
    assert_eq!(name(r.after_write(1)), None);
    drop(running);
    assert_eq!(name(r.after_write(1)), scheduled);
}

#[test]
fn a_rotation_now_is_followed_by_the_next_boundary() {
    let mut r = start(builder(Rotation::AgeBased(RotationAge::Minutely)), &[], None);
    let due = r.after_write(1).unwrap();
    assert_eq!(due.name, "app.log.2025-04-01-19-56");
    let before = chrono::Utc::now().timestamp();
    r.finish_rollover(due, Ok(ended())).unwrap();
    let next = r.state().next_age_based_time.timestamp();
    assert!(next > before && next % 60 == 0);
    assert!(next <= chrono::Utc::now().timestamp() + 60);
}

#[test]
fn a_flush_waits_once_where_that_is_configured() {
    let mut r = start(by_size(10).graceful_shutdown(true), &[], None);
    assert!(r.flush().is_none());
    r.finish_rollover(log_path("app.log.1"), Ok(ended())).unwrap();
    assert_eq!(r.flush().unwrap().recv(), Ok(()));
    assert!(r.flush().is_none());
    // the channel of the last rotation is the one that is waited for
    let (first, first_rx) = task();
    let (second, second_rx) = task();
    r.finish_rollover(log_path("app.log.1"), Ok(first_rx)).unwrap();
    r.finish_rollover(log_path("app.log.1"), Ok(second_rx)).unwrap();
    drop(first);
    second.send(()).unwrap();
    assert_eq!(r.flush().unwrap().recv(), Ok(()));
    let mut r = start(by_size(10), &[], None);
    let (_tx, rx) = task();
    r.finish_rollover(log_path("app.log.1"), Ok(rx)).unwrap();
    assert!(r.flush().is_none());
    assert!(r.after_write(10).is_none());
}

#[test]
fn should_rollover_goes_by_configuration_and_state() {
    let mut r = start(by_size(10), &[], None);
    assert!(LogRoller::should_rollover(r.meta(), r.state()).is_none());
    r.after_write(10);
    assert_eq!(
        name(LogRoller::should_rollover(r.meta(), r.state())),
        Some(String::from("app.log.1"))
    );
    let r = start(builder(Rotation::AgeBased(RotationAge::Daily)), &[], None);
    assert_eq!(name(LogRoller::should_rollover_at(r.meta(), r.state(), &at(NOW))), None);
    assert_eq!(
        name(LogRoller::should_rollover(r.meta(), r.state())),
        Some(String::from("app.log.2025-04-02"))
    );
}
