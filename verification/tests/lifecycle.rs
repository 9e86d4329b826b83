use std::collections::BTreeMap;

use logroller::calendar::{DateTime, FixedOffset};
use logroller::codec::compress_bytes;
use logroller::error::LogPath;
use logroller::retention::DirEntryInfo;
use logroller::rollover::{FileAction, FileEvent, FilePlan, FileStep};
use logroller::thread_pool::{PoolState, TaskState};
use logroller::{Compression, LogRoller, LogRollerBuilder, Rotation, RotationSize, TimeZone};

type Files = BTreeMap<String, Vec<u8>>;

fn perform(step: FileStep<LogPath>, files: &mut Files) {
    match step {
        FileStep::CreateLog { path } => {
            files.entry(path.name).or_default();
        }
        FileStep::CreateNew { path } => {
            files.insert(path.name, Vec::new());
        }
        FileStep::Encode { from, to, compression } => {
            let stream = compress_bytes(&compression, &files[&from.name]).unwrap();
            files.insert(to.name, stream);
        }
        FileStep::Remove { path } => {
            files.remove(&path.name).unwrap();
        }
        _ => {}
    }
}

fn carry_out(mut plan: FilePlan, files: &mut Files) {
    loop {
        let event = match plan.action() {
            FileAction::Finish => return,
            FileAction::Probe { path } if files.contains_key(&path.name) => FileEvent::Done,
            FileAction::Probe { .. } => FileEvent::Absent,
            FileAction::Rename { from, to } => {
                let contents = files.remove(&from.name).unwrap();
                files.insert(to.name, contents);
                FileEvent::Done
            }
            FileAction::Perform { step } => {
                perform(step, files);
                FileEvent::Done
            }
        };
        plan.advance(event).unwrap();
    }
}

fn clean_up(roller: &LogRoller, files: &mut Files) {
    let listing = Ok(files
        .keys()
        .map(|name| DirEntryInfo { name: Some(name.clone()), is_file: Ok(true) })
        .collect());
    for name in roller.meta().process_old_logs(Ok(()), &listing).unwrap() {
        files.remove(&name).unwrap();
    }
}

/// Writes a line to the log, and rotates it with all that belongs to that.
fn write_and_rotate(roller: &mut LogRoller, files: &mut Files, line: &str) {
    files.get_mut("app.log").unwrap().extend_from_slice(line.as_bytes());
    let path = roller.after_write(line.len()).unwrap();
    let plan = roller.begin_rollover(PoolState::Ready, path.clone()).unwrap().unwrap();
    carry_out(plan, files);
    let (done, rx) = crossbeam_channel::bounded(1);
    roller.finish_rollover(path.clone(), Ok(rx)).unwrap();
    carry_out(roller.meta().compress(&path), files);
    clean_up(roller, files);
    done.send(()).unwrap();
}

fn rotate_all(builder: LogRollerBuilder, lines: &[&str]) -> Files {
    let builder =
        builder.time_zone(TimeZone::UTC).rotation(Rotation::SizeBased(RotationSize::Bytes(1)));
    let mut roller = builder.build(&Vec::new(), None).unwrap();
    let mut files = Files::new();
    files.insert(String::from("app.log"), Vec::new());
    for line in lines {
        write_and_rotate(&mut roller, &mut files, line);
    }
    files
}

fn expected(given: &[(&str, &[u8])]) -> Files {
    given.iter().map(|(n, c)| (n.to_string(), c.to_vec())).collect()
}

#[test]
fn a_log_without_a_limit_keeps_everything() {
    let builder = LogRollerBuilder::new("logs", "app.log");
    assert_eq!(
        rotate_all(builder, &["a", "b", "c", "d"]),
        expected(&[
            ("app.log", b""),
            ("app.log.1", b"d"),
            ("app.log.2", b"c"),
            ("app.log.3", b"b"),
            ("app.log.4", b"a"),
        ])
    );
}

#[test]
fn a_log_with_a_limit_keeps_the_youngest() {
    let builder = LogRollerBuilder::new("logs", "app.log").max_keep_files(3);
    assert_eq!(
        rotate_all(builder, &["a", "b", "c", "d", "e"]),
        expected(&[("app.log", b""), ("app.log.1", b"e"), ("app.log.2", b"d")])
    );
}

#[test]
fn compressed_files_move_up_and_expire() {
    let builder = LogRollerBuilder::new("logs", "app.log")
        .compression(Compression::Gzip)
        .max_keep_files(3);
    let d = compress_bytes(&Compression::Gzip, b"d").unwrap();
    let c = compress_bytes(&Compression::Gzip, b"c").unwrap();
    assert_eq!(
        rotate_all(builder, &["a", "b", "c", "d"]),
        expected(&[("app.log", b""), ("app.log.1.gz", &d), ("app.log.2.gz", &c)])
    );
}

#[test]
fn a_limit_of_one_keeps_the_log_file_alone() {
    let builder = LogRollerBuilder::new("logs", "app.log").max_keep_files(1);
    assert_eq!(rotate_all(builder, &["a", "b"]), expected(&[("app.log", b"")]));
}

#[test]
fn dated_files_are_compressed_and_expire() {
    let utc = FixedOffset::east_opt(0).unwrap();
    let day = |n: i64| DateTime::from_timestamp(1_743_465_600 + 86_400 * n, 0, utc).unwrap();
    let mut roller = LogRollerBuilder::new("logs", "app.log")
        .time_zone(TimeZone::UTC)
        .compression(Compression::Gzip)
        .max_keep_files(2)
        .build_at(&Vec::new(), None, &day(0), &day(0))
        .unwrap();
    let mut files = Files::new();
    files.insert(String::from("app.log.2025-04-01"), b"first".to_vec());
    for n in 1..4 {
        let old_path = roller.state().curr_file_path.clone();
        let path = roller.after_write_at(1, TaskState::Finished, &day(n)).unwrap();
        let plan = roller.begin_rollover(PoolState::Ready, path.clone()).unwrap().unwrap();
        carry_out(plan, &mut files);
        let (_done, rx) = crossbeam_channel::bounded(1);
        roller.finish_rollover_at(path, Ok(rx), &day(n)).unwrap();
        carry_out(roller.meta().compress(&old_path), &mut files);
        clean_up(&roller, &mut files);
    }
    let empty = compress_bytes(&Compression::Gzip, b"").unwrap();
    assert_eq!(
        files,
        expected(&[("app.log.2025-04-03.gz", &empty), ("app.log.2025-04-04", b"")])
    );
}

#[test]
fn the_files_in_order_hold_all_bytes() {
    let mut roller = LogRollerBuilder::new("logs", "app.log")
        .time_zone(TimeZone::UTC)
        .rotation(Rotation::SizeBased(RotationSize::Bytes(5)))
        .build(&Vec::new(), None)
        .unwrap();
    let mut files = Files::new();
    files.insert(String::from("app.log"), Vec::new());
    let mut written = Vec::new();
    let mut rotations = 0;
    for (i, piece) in ["ab", "cde", "f", "", "ghijkl", "mn", "opq", "r"].iter().enumerate() {
        written.extend_from_slice(piece.as_bytes());
        files.get_mut("app.log").unwrap().extend_from_slice(piece.as_bytes());
        let seen = if i == 6 { TaskState::Running } else { TaskState::Finished };
        let now = roller.state().next_age_based_time;
        if let Some(path) = roller.after_write_at(piece.len(), seen, &now) {
            let plan = roller.begin_rollover(PoolState::Ready, path.clone()).unwrap().unwrap();
            carry_out(plan, &mut files);
            let (_done, rx) = crossbeam_channel::bounded(1);
            roller.finish_rollover(path, Ok(rx)).unwrap();
            rotations += 1;
        }
    }
    assert_eq!(rotations, 3);
    let mut read = Vec::new();
    for i in (1..=rotations).rev() {
        read.extend_from_slice(&files[&format!("app.log.{}", i)]);
    }
    read.extend_from_slice(&files["app.log"]);
    assert_eq!(read, written);
    assert_eq!(files.len(), rotations + 1);
}
