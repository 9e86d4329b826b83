use logroller::meta::LogRollerMeta;
use logroller::pattern::{build_pattern, NAME_LIMIT};
use logroller::retention::DirEntryInfo;
use logroller::{Compression, LogRollerError, Rotation, RotationAge, RotationSize};

fn file(name: &str) -> DirEntryInfo {
    DirEntryInfo { name: Some(name.to_string()), is_file: Ok(true) }
}

fn listing(names: &[&str]) -> Result<Vec<DirEntryInfo>, String> {
    Ok(names.iter().map(|n| file(n)).collect())
}

const BY_SIZE: Rotation = Rotation::SizeBased(RotationSize::KB(1));

fn list(
    rotation: Rotation,
    suffix: Option<&str>,
    compression: Option<Compression>,
    names: &[&str],
) -> Vec<String> {
    LogRollerMeta::list_all_files(
        "app.log",
        &rotation,
        &suffix.map(String::from),
        &compression,
        &listing(names),
    )
    .unwrap()
}

fn meta(rotation: Rotation, max: u64, compression: Option<Compression>) -> LogRollerMeta {
    let mut m = LogRollerMeta::new("logs", "app.log");
    m.rotation = rotation;
    m.max_keep_files = Some(max);
    m.compression = compression;
    m
}

#[test]
fn numbered_files_are_listed_by_name() {
    assert_eq!(
        list(BY_SIZE, None, None, &["app.log.2", "app.log", "app.log.10", "app.log.1.gz", "app.log.x", "b.log"]),
        ["app.log", "app.log.10", "app.log.2"]
    );
}

#[test]
fn compressed_files_are_listed_where_files_are_compressed() {
    assert_eq!(
        list(BY_SIZE, None, Some(Compression::Gzip), &["app.log.1.gz", "app.log.2.xz", "app.log.3"]),
        ["app.log.1.gz", "app.log.3"]
    );
    assert_eq!(
        list(BY_SIZE, None, Some(Compression::XZ(3)), &["app.log.1.gz", "app.log.2.xz"]),
        ["app.log.2.xz"]
    );
}

#[test]
fn dated_files_are_listed_by_their_stamp() {
    let names = [
        "app.log.2025-04-02", "app.log.2025-04-01", "app.log.2025-04-01-19", "app.log",
        "app.log.2025-04-01-19-55", "app.log.2025-4-1",
    ];
    let daily = Rotation::AgeBased(RotationAge::Daily);
    assert_eq!(list(daily, None, None, &names), ["app.log.2025-04-01", "app.log.2025-04-02"]);
    let hourly = Rotation::AgeBased(RotationAge::Hourly);
    assert_eq!(list(hourly, None, None, &names), ["app.log.2025-04-01-19"]);
    let minutely = Rotation::AgeBased(RotationAge::Minutely);
    assert_eq!(list(minutely, None, None, &names), ["app.log.2025-04-01-19-55"]);
}

#[test]
fn the_suffix_may_stand_behind_the_stamp() {
    let daily = Rotation::AgeBased(RotationAge::Daily);
    assert_eq!(
        list(
            daily,
            Some("error"),
            Some(Compression::Gzip),
            &["app.log.2025-04-02.error.gz", "app.log.2025-04-01.error", "app.log.2025-04-03.warn"],
        ),
        ["app.log.2025-04-01.error", "app.log.2025-04-02.error.gz"]
    );
}

#[test]
fn each_character_of_a_name_stands_for_itself() {
    assert_eq!(list(BY_SIZE, None, None, &["app.log", "appxlog.1"]), ["app.log"]);
    let odd = "a+b(c)[d]{2}^$|\\*?.log";
    let rotated = format!("{}.1", odd);
    let names = LogRollerMeta::list_all_files(
        odd,
        &BY_SIZE,
        &Some(String::from("x.y")),
        &Some(Compression::Gzip),
        &listing(&[odd, &rotated, "aab(c)", "app.log"]),
    )
    .unwrap();
    assert_eq!(names, [odd.to_string(), rotated]);
    assert_eq!(
        list(BY_SIZE, Some("x.y"), Some(Compression::Gzip), &[
            "app.log.1.x.y.gz", "app.log.1.xzy.gz", "app.log.1xgz", "app.log.1.gz", "app.log.1-x.y",
        ]),
        ["app.log.1.gz", "app.log.1.x.y.gz"]
    );
}

#[test]
fn only_digits_that_rotation_writes_are_numbers() {
    assert_eq!(list(BY_SIZE, None, None, &["app.log.7", "app.log.\u{0667}"]), ["app.log.7"]);
}

#[test]
fn patterns_are_written_out() {
    let gzip = Some(Compression::Gzip);
    let suffix = Some(String::from("e-r"));
    assert_eq!(
        build_pattern("app.log", &BY_SIZE, &None, &gzip),
        r"^app\.log(\.[0-9]+)?(\.gz)?$"
    );
    assert_eq!(
        build_pattern("a", &Rotation::AgeBased(RotationAge::Daily), &suffix, &None),
        r"^a\.[0-9]{4}-[0-9]{2}-[0-9]{2}(\.e\-r)?$"
    );
    assert_eq!(
        build_pattern("\\.+*?()|[]{}^$#&-~ a%/\u{e9}", &BY_SIZE, &None, &None),
        "^\\\\\\.\\+\\*\\?\\(\\)\\|\\[\\]\\{\\}\\^\\$\\#\\&\\-\\~ a%/\u{e9}(\\.[0-9]+)?$"
    );
}

#[test]
fn names_within_the_limit_are_patterns() {
    let long = "\u{1F600}".repeat(NAME_LIMIT);
    let rotated = format!("{}.1.{}", long, long);
    let names = LogRollerMeta::list_all_files(
        &long,
        &BY_SIZE,
        &Some(long.clone()),
        &None,
        &listing(&[&rotated, "x"]),
    )
    .unwrap();
    assert_eq!(names, [rotated]);
}

#[test]
fn a_name_beyond_the_limit_is_listed_where_it_is_a_pattern() {
    let long = "a.".repeat(NAME_LIMIT);
    let rotated = format!("{}.1.gz", long);
    let gzip = Some(Compression::Gzip);
    let all = listing(&[&rotated, "x", &long]);
    let names = LogRollerMeta::list_all_files(&long, &BY_SIZE, &None, &gzip, &all).unwrap();
    assert_eq!(names, [long, rotated]);
}

#[test]
fn what_is_no_file_is_not_listed() {
    let entries = vec![
        DirEntryInfo { name: Some(String::from("app.log.1")), is_file: Ok(false) },
        DirEntryInfo { name: None, is_file: Ok(true) },
        file("app.log.2"),
    ];
    let names =
        LogRollerMeta::list_all_files("app.log", &BY_SIZE, &None, &None, &Ok(entries)).unwrap();
    assert_eq!(names, ["app.log.2"]);
}

#[test]
fn a_name_that_is_too_long_for_a_pattern_is_an_error() {
    let long = "a".repeat(1_000_000);
    match LogRollerMeta::list_all_files(&long, &BY_SIZE, &None, &None, &listing(&[])) {
        Err(LogRollerError::InternalError(message)) => assert!(message.contains("size limit")),
        other => panic!("{:?}", other),
    }
}

#[test]
fn a_directory_that_cannot_be_read_is_an_error() {
    let unread: Result<Vec<DirEntryInfo>, String> = Err(String::from("denied"));
    match LogRollerMeta::list_all_files("app.log", &BY_SIZE, &None, &None, &unread) {
        Err(LogRollerError::InternalError(message)) => assert_eq!(message, "denied"),
        other => panic!("{:?}", other),
    }
}

#[test]
fn an_entry_that_cannot_be_read_is_an_error() {
    let entries = vec![
        file("app.log.1"),
        DirEntryInfo { name: Some(String::from("x")), is_file: Err(String::from("gone")) },
        DirEntryInfo { name: Some(String::from("y")), is_file: Err(String::from("later")) },
    ];
    match LogRollerMeta::list_all_files("app.log", &BY_SIZE, &None, &None, &Ok(entries)) {
        Err(LogRollerError::FileIOError(message)) => assert_eq!(message, "gone"),
        other => panic!("{:?}", other),
    }
}

#[test]
fn numbers_beyond_the_limit_are_removed() {
    let m = meta(BY_SIZE, 3, None);
    let all = listing(&["app.log", "app.log.1", "app.log.2", "app.log.3", "app.log.10"]);
    assert_eq!(m.process_old_logs(Ok(()), &all).unwrap(), ["app.log.10", "app.log.3"]);
}

#[test]
fn compressed_numbers_beyond_the_limit_are_removed() {
    let m = meta(BY_SIZE, 2, Some(Compression::Gzip));
    let all = listing(&["app.log", "app.log.1.gz", "app.log.2.gz", "app.log.3.gz", "app.log.9"]);
    assert_eq!(
        m.process_old_logs(Ok(()), &all).unwrap(),
        ["app.log.2.gz", "app.log.3.gz", "app.log.9"]
    );
}

#[test]
fn a_log_file_that_ends_in_a_number_is_kept() {
    let mut m = meta(BY_SIZE, 3, None);
    m.filename = String::from("app.5");
    let all = listing(&["app.5", "app.5.1", "app.5.2", "app.5.3"]);
    assert_eq!(m.process_old_logs(Ok(()), &all).unwrap(), ["app.5.3"]);
    assert!(m.process_old_logs(Ok(()), &listing(&["app.5"])).unwrap().is_empty());
}

#[test]
fn a_number_inside_the_name_of_the_log_file_does_not_count() {
    let mut m = meta(BY_SIZE, 2, Some(Compression::Gzip));
    m.filename = String::from("app.20.log");
    let all = listing(&["app.20.log", "app.20.log.1", "app.20.log.1.gz", "app.20.log.2.gz"]);
    assert_eq!(m.process_old_logs(Ok(()), &all).unwrap(), ["app.20.log.2.gz"]);
}

#[test]
fn the_oldest_dated_files_are_removed() {
    let m = meta(Rotation::AgeBased(RotationAge::Daily), 2, Some(Compression::Gzip));
    let all = listing(&[
        "app.log.2025-04-03", "app.log.2024-12-31.gz", "app.log.2025-04-01.gz", "app.log.2025-04-02.gz",
    ]);
    assert_eq!(
        m.process_old_logs(Ok(()), &all).unwrap(),
        ["app.log.2024-12-31.gz", "app.log.2025-04-01.gz"]
    );
    let few = listing(&["app.log.2025-04-03", "app.log.2025-04-02.gz"]);
    assert!(m.process_old_logs(Ok(()), &few).unwrap().is_empty());
}

#[test]
fn without_a_limit_nothing_is_removed() {
    let mut m = meta(BY_SIZE, 0, None);
    assert_eq!(m.process_old_logs(Ok(()), &listing(&["app.log.1"])).unwrap(), ["app.log.1"]);
    m.max_keep_files = None;
    assert!(m.process_old_logs(Ok(()), &listing(&["app.log.1"])).unwrap().is_empty());
    m.filename = String::from("(");
    assert!(m.process_old_logs(Ok(()), &Err(String::from("denied"))).unwrap().is_empty());
}

#[test]
fn nothing_is_removed_where_compression_failed() {
    let m = meta(BY_SIZE, 1, None);
    let failed = Err(LogRollerError::FileIOError(String::from("disk full")));
    match m.process_old_logs(failed, &listing(&["app.log.1"])) {
        Err(LogRollerError::FileIOError(message)) => assert_eq!(message, "disk full"),
        other => panic!("{:?}", other),
    }
}

#[test]
fn a_list_error_ends_the_cleanup() {
    let m = meta(BY_SIZE, 1, None);
    assert!(matches!(
        m.process_old_logs(Ok(()), &Err(String::from("denied"))),
        Err(LogRollerError::InternalError(_))
    ));
}

#[test]
fn expired_files_of_a_sorted_list() {
    let m = meta(BY_SIZE, 2, None);
    let all = vec![String::from("app.log.1"), String::from("app.log.2")];
    assert_eq!(m.expired_files(&all, 2), ["app.log.2"]);
}
