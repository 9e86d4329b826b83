use logroller::create::{CreateAction, CreateEvent, CreatePlan};
use logroller::meta::LogRollerMeta;
use logroller::LogRollerError;

fn plan(mode: Option<u32>) -> CreatePlan {
    let mut meta = LogRollerMeta::new("logs", "app.log");
    meta.file_mode = mode;
    let path = meta.path(String::from("app.log.1"));
    meta.create_log_file(&path)
}

fn asked(plan: &CreatePlan) -> String {
    match plan.action() {
        CreateAction::Open { path } => format!("open {}/{}", path.directory, path.name),
        CreateAction::MakeDirectory { directory } => format!("mkdir {}", directory),
        CreateAction::SetMode { path, mode } => format!("chmod {:o} {}", mode, path.name),
        CreateAction::Finish => String::from("finish"),
    }
}

fn open_failed(parent: Option<&str>) -> CreateEvent {
    CreateEvent::OpenFailed { parent: parent.map(String::from), error: String::from("not there") }
}

#[test]
fn a_file_that_opens_is_open() {
    let mut p = plan(None);
    assert_eq!(asked(&p), "open logs/app.log.1");
    p.advance(CreateEvent::Done).unwrap();
    assert_eq!(asked(&p), "finish");
}

#[test]
fn an_open_file_gets_its_permissions() {
    let mut p = plan(Some(0o644));
    p.advance(CreateEvent::Done).unwrap();
    assert_eq!(asked(&p), "chmod 644 app.log.1");
    p.advance(CreateEvent::Done).unwrap();
    assert_eq!(asked(&p), "finish");
}

#[test]
fn a_missing_directory_is_made() {
    let mut p = plan(Some(0o600));
    p.advance(open_failed(Some("logs"))).unwrap();
    assert_eq!(asked(&p), "mkdir logs");
    p.advance(CreateEvent::Done).unwrap();
    assert_eq!(asked(&p), "open logs/app.log.1");
    p.advance(CreateEvent::Done).unwrap();
    assert_eq!(asked(&p), "chmod 600 app.log.1");
    p.advance(CreateEvent::Done).unwrap();
    assert_eq!(asked(&p), "finish");
}

#[test]
fn a_directory_that_cannot_be_made_is_an_error() {
    let mut p = plan(None);
    p.advance(open_failed(Some("logs"))).unwrap();
    match p.advance(CreateEvent::Failed(String::from("denied"))) {
        Err(LogRollerError::CreateDirectoryFailed(directory, error)) => {
            assert_eq!((directory.as_str(), error.as_str()), ("logs", "denied"))
        }
        other => panic!("{:?}", other),
    }
    assert_eq!(asked(&p), "mkdir logs");
}

#[test]
fn a_file_that_cannot_be_opened_twice_is_an_error() {
    let mut p = plan(None);
    p.advance(open_failed(Some("logs"))).unwrap();
    p.advance(CreateEvent::Done).unwrap();
    match p.advance(open_failed(Some("logs"))) {
        Err(LogRollerError::CreateFileFailed(path, error)) => {
            assert_eq!((path.name.as_str(), error.as_str()), ("app.log.1", "not there"))
        }
        other => panic!("{:?}", other),
    }
}

#[test]
fn a_file_without_a_directory_is_opened_once() {
    let mut p = plan(None);
    assert!(matches!(
        p.advance(open_failed(None)),
        Err(LogRollerError::CreateFileFailed(_, _))
    ));
}

#[test]
fn permissions_that_cannot_be_set_are_an_error() {
    let mut p = plan(Some(0o644));
    p.advance(CreateEvent::Done).unwrap();
    match p.advance(CreateEvent::Failed(String::from("denied"))) {
        Err(LogRollerError::SetFilePermissionsError { path, error }) => {
            assert_eq!((path.name.as_str(), error.as_str()), ("app.log.1", "denied"))
        }
        other => panic!("{:?}", other),
    }
}
