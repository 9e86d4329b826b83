use std::collections::BTreeMap;

use logroller::codec::compress_bytes;
use logroller::error::LogPath;
use logroller::meta::LogRollerMeta;
use logroller::rollover::{FileAction, FileEvent, FilePlan, FileStep};
use logroller::{Compression, LogRollerError, Rotation, RotationAge, RotationSize, SubmitError};

type Files = BTreeMap<String, Vec<u8>>;

fn files(given: &[(&str, &str)]) -> Files {
    given.iter().map(|(n, c)| (n.to_string(), c.as_bytes().to_vec())).collect()
}

fn meta(rotation: Rotation, compression: Option<Compression>) -> LogRollerMeta {
    let mut m = LogRollerMeta::new("logs", "app.log");
    m.rotation = rotation;
    m.compression = compression;
    m
}

fn by_size(compression: Option<Compression>) -> LogRollerMeta {
    meta(Rotation::SizeBased(RotationSize::KB(1)), compression)
}

fn path(m: &LogRollerMeta, name: &str) -> LogPath {
    m.path(name.to_string())
}

fn rotation_plan(m: &LogRollerMeta, new: &str, index: usize) -> FilePlan {
    m.refresh_writer(&Ok(()), path(m, "old"), path(m, new), index, &m.compression).unwrap()
}

/// Carries out the plan on the files, and returns what was done besides.
fn carry_out(plan: &mut FilePlan, files: &mut Files) -> Vec<String> {
    let mut notes = Vec::new();
    loop {
        let event = match plan.action() {
            FileAction::Finish => return notes,
            FileAction::Probe { path } => {
                if files.contains_key(&path.name) {
                    FileEvent::Done
                } else {
                    FileEvent::Absent
                }
            }
            FileAction::Rename { from, to } => match files.remove(&from.name) {
                Some(contents) => {
                    files.insert(to.name, contents);
                    FileEvent::Done
                }
                None => FileEvent::Failed(String::from("not there")),
            },
            FileAction::Perform { step } => {
                match step {
                    FileStep::Submit { path } => notes.push(format!("submit {}", path.name)),
                    FileStep::CreateLog { path } => {
                        files.entry(path.name).or_default();
                    }
                    FileStep::Flush => notes.push(String::from("flush")),
                    FileStep::Switch => notes.push(String::from("switch")),
                    FileStep::Start => notes.push(String::from("start")),
                    FileStep::Open { path } => assert!(files.contains_key(&path.name)),
                    FileStep::CreateNew { path } => {
                        files.insert(path.name, Vec::new());
                    }
                    FileStep::Encode { from, to, compression } => {
                        let stream = compress_bytes(&compression, &files[&from.name]).unwrap();
                        files.insert(to.name, stream);
                    }
                    FileStep::SetMode { path, mode } => {
                        notes.push(format!("chmod {:o} {}", mode, path.name))
                    }
                    FileStep::Remove { path } => {
                        files.remove(&path.name).unwrap();
                    }
                    FileStep::Shift { .. } | FileStep::Move { .. } => unreachable!(),
                }
                FileEvent::Done
            }
        };
        plan.advance(event).unwrap();
    }
}

#[test]
fn size_rotation_moves_numbered_files_up() {
    let m = by_size(None);
    let mut dir = files(&[("app.log", "new"), ("app.log.1", "one"), ("app.log.3", "three"), ("x", "x")]);
    let notes = carry_out(&mut rotation_plan(&m, "app.log.1", 4), &mut dir);
    assert_eq!(notes, ["submit app.log.1", "flush", "switch", "start"]);
    assert_eq!(
        dir,
        files(&[("app.log", ""), ("app.log.1", "new"), ("app.log.2", "one"), ("app.log.4", "three"), ("x", "x")])
    );
}

#[test]
fn size_rotation_moves_compressed_files_up() {
    let m = by_size(Some(Compression::Gzip));
    let mut dir = files(&[("app.log", "new"), ("app.log.1.gz", "one"), ("app.log.2", "two"), ("app.log.1.xz", "x")]);
    carry_out(&mut rotation_plan(&m, "app.log.1", 3), &mut dir);
    assert_eq!(
        dir,
        files(&[("app.log", ""), ("app.log.1", "new"), ("app.log.2.gz", "one"), ("app.log.3", "two"), ("app.log.1.xz", "x")])
    );
}

#[test]
fn only_the_file_with_the_next_number_is_overwritten() {
    let m = by_size(None);
    let mut dir = files(&[("app.log", "new"), ("app.log.1", "one"), ("app.log.2", "two"), ("app.log.3", "three")]);
    carry_out(&mut rotation_plan(&m, "app.log.1", 2), &mut dir);
    assert_eq!(
        dir,
        files(&[("app.log", ""), ("app.log.1", "new"), ("app.log.2", "one"), ("app.log.3", "three")])
    );
}

#[test]
fn the_first_rotation_has_nothing_to_move_up() {
    for index in [0, 1] {
        let m = by_size(None);
        let mut dir = files(&[("app.log", "new"), ("app.log.2", "two")]);
        carry_out(&mut rotation_plan(&m, "app.log.1", index), &mut dir);
        assert_eq!(dir, files(&[("app.log", ""), ("app.log.1", "new"), ("app.log.2", "two")]));
    }
}

#[test]
fn age_rotation_adds_a_file() {
    let m = meta(Rotation::AgeBased(RotationAge::Daily), None);
    let mut dir = files(&[("old", "past")]);
    let notes = carry_out(&mut rotation_plan(&m, "new", 7), &mut dir);
    assert_eq!(notes, ["submit old", "flush", "switch", "start"]);
    assert_eq!(dir, files(&[("old", "past"), ("new", "")]));
    let mut dir = files(&[("old", "past"), ("new", "there")]);
    carry_out(&mut rotation_plan(&m, "new", 7), &mut dir);
    assert_eq!(dir, files(&[("old", "past"), ("new", "there")]));
}

#[test]
fn without_a_pool_there_is_no_plan() {
    let m = by_size(None);
    let no_pool: Result<(), String> = Err(String::from("no threads"));
    match m.refresh_writer(&no_pool, path(&m, "a"), path(&m, "b"), 1, &None) {
        Err(LogRollerError::InternalError(message)) => {
            assert_eq!(message, "Failed to initialize rotation worker pool: no threads")
        }
        other => panic!("{:?}", other),
    }
}

#[test]
fn a_task_that_is_not_taken_ends_the_rotation() {
    let m = by_size(None);
    let mut plan = rotation_plan(&m, "app.log.1", 3);
    assert!(matches!(
        plan.advance(FileEvent::Rejected(SubmitError::QueueFull)),
        Err(LogRollerError::RotationQueueFull)
    ));
    assert!(matches!(
        plan.advance(FileEvent::Rejected(SubmitError::Disconnected)),
        Err(LogRollerError::InternalError(_))
    ));
}

#[test]
fn a_rename_that_fails_ends_the_rotation() {
    let m = by_size(None);
    let mut plan = rotation_plan(&m, "app.log.1", 2);
    plan.advance(FileEvent::Done).unwrap();
    assert!(matches!(plan.action(), FileAction::Probe { .. }));
    plan.advance(FileEvent::Done).unwrap();
    assert!(matches!(plan.action(), FileAction::Rename { .. }));
    match plan.advance(FileEvent::Failed(String::from("denied"))) {
        Err(LogRollerError::RenameFileError { from, to, error }) => {
            assert_eq!(from.name, "app.log.1");
            assert_eq!(to.name, "app.log.2");
            assert_eq!(error, "denied");
        }
        other => panic!("{:?}", other),
    }
    assert!(matches!(plan.action(), FileAction::Rename { .. }));
}

#[test]
fn a_file_that_is_not_there_is_not_renamed() {
    let m = by_size(None);
    let mut plan = rotation_plan(&m, "app.log.1", 2);
    plan.advance(FileEvent::Done).unwrap();
    plan.advance(FileEvent::Absent).unwrap();
    match plan.action() {
        FileAction::Rename { from, to } => {
            assert_eq!((from.name.as_str(), to.name.as_str()), ("app.log", "app.log.1"))
        }
        other => panic!("{:?}", other),
    }
}

#[test]
fn a_new_log_file_that_fails_ends_the_rotation() {
    let m = meta(Rotation::AgeBased(RotationAge::Daily), None);
    let mut plan = rotation_plan(&m, "new", 1);
    plan.advance(FileEvent::Done).unwrap();
    let error = LogRollerError::CreateFileFailed(path(&m, "new"), String::from("denied"));
    assert!(matches!(
        plan.advance(FileEvent::CreateFailed(error)),
        Err(LogRollerError::CreateFileFailed(_, _))
    ));
}

#[test]
fn a_flush_that_fails_ends_the_rotation() {
    let m = meta(Rotation::AgeBased(RotationAge::Daily), None);
    let mut plan = rotation_plan(&m, "new", 1);
    plan.advance(FileEvent::Done).unwrap();
    plan.advance(FileEvent::Done).unwrap();
    match plan.advance(FileEvent::Failed(String::from("disk full"))) {
        Err(LogRollerError::FileIOError(message)) => assert_eq!(message, "disk full"),
        other => panic!("{:?}", other),
    }
}

#[test]
fn compression_replaces_the_file() {
    let mut m = by_size(Some(Compression::Gzip));
    m.file_mode = Some(0o640);
    let mut dir = files(&[("app.log.1", "some lines"), ("app.log", "more")]);
    let notes = carry_out(&mut m.compress(&path(&m, "app.log.1")), &mut dir);
    assert_eq!(notes, ["chmod 640 app.log.1.gz"]);
    assert_eq!(dir.keys().collect::<Vec<_>>(), ["app.log", "app.log.1.gz"]);
    assert_eq!(dir["app.log.1.gz"], compress_bytes(&Compression::Gzip, b"some lines").unwrap());
}

#[test]
fn compression_with_xz_has_its_own_extension() {
    let m = by_size(Some(Compression::XZ(1)));
    let mut dir = files(&[("app.log.1", "some lines")]);
    assert!(carry_out(&mut m.compress(&path(&m, "app.log.1")), &mut dir).is_empty());
    assert_eq!(dir.keys().collect::<Vec<_>>(), ["app.log.1.xz"]);
}

#[test]
fn without_compression_the_file_stays() {
    let m = by_size(None);
    let mut dir = files(&[("app.log.1", "some lines")]);
    carry_out(&mut m.compress(&path(&m, "app.log.1")), &mut dir);
    assert_eq!(dir, files(&[("app.log.1", "some lines")]));
}

#[test]
fn a_failed_compression_keeps_the_file() {
    let mut m = by_size(Some(Compression::Gzip));
    m.file_mode = Some(0o600);
    let mut plan = m.compress(&path(&m, "app.log.1"));
    assert!(matches!(
        plan.advance(FileEvent::Failed(String::from("gone"))),
        Err(LogRollerError::FileIOError(_))
    ));
    plan.advance(FileEvent::Done).unwrap();
    plan.advance(FileEvent::Done).unwrap();
    plan.advance(FileEvent::Done).unwrap();
    match plan.advance(FileEvent::Failed(String::from("denied"))) {
        Err(LogRollerError::SetFilePermissionsError { path, error }) => {
            assert_eq!((path.name.as_str(), error.as_str()), ("app.log.1.gz", "denied"))
        }
        other => panic!("{:?}", other),
    }
}

#[test]
fn permissions_are_set_where_they_are_configured() {
    let mut m = by_size(None);
    assert!(m.set_permissions(&path(&m, "app.log")).is_none());
    m.file_mode = Some(0o644);
    match m.set_permissions(&path(&m, "app.log")) {
        Some(FileStep::SetMode { path, mode }) => {
            assert_eq!((path.name.as_str(), mode), ("app.log", 0o644))
        }
        other => panic!("{:?}", other),
    }
}
