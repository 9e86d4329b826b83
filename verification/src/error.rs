//! Paths of log files, and what can go wrong with them.
use vstd::prelude::*;

verus! {

/// The path of a file: a name, looked up in a directory.
#[derive(Debug)]
pub struct LogPath {
    /// The directory in which the name is looked up.
    pub directory: String,
    /// The name of the file in the directory.
    pub name: String,
}

/// A path as the contracts see it.
pub struct PathView {
    pub directory: Seq<char>,
    pub name: Seq<char>,
}

impl View for LogPath {
    type V = PathView;

    open spec fn view(&self) -> PathView {
        PathView { directory: self.directory@, name: self.name@ }
    }
}

impl Clone for LogPath {
    fn clone(&self) -> (r: Self)
        ensures
            r@ == self@,
    {
        LogPath { directory: self.directory.clone(), name: self.name.clone() }
    }
}

/// Errors that can occur when using the log roller.
#[derive(Debug)]
pub enum LogRollerError {
    /// A directory could not be made.
    CreateDirectoryFailed(String, String),
    /// A log file could not be opened.
    CreateFileFailed(LogPath, String),
    /// There is no such time of day.
    GetNaiveTimeFailed,
    /// The rotation type is not known.
    InvalidRotationType(String),
    /// The next file cannot be named.
    GetNextFilePathError(LogPath),
    /// A file could not be renamed.
    RenameFileError { from: LogPath, to: LogPath, error: String },
    /// Reading or writing a file failed.
    FileIOError(String),
    /// The log file is not to be rotated at this time.
    ShouldNotRotate(LogPath),
    /// Anything else.
    InternalError(String),
    /// The rotation task queue is full.
    RotationQueueFull,
    /// The permissions of a file could not be set.
    SetFilePermissionsError { path: LogPath, error: String },
    /// The XZ compression level is not one of 0 to 9.
    InvalidXZCompressionLevel { level: u32 },
}

/// An error as the contracts see it.
pub enum ErrorView {
    CreateDirectoryFailed(Seq<char>, Seq<char>),
    CreateFileFailed(PathView, Seq<char>),
    GetNaiveTimeFailed,
    InvalidRotationType(Seq<char>),
    GetNextFilePathError(PathView),
    RenameFileError { from: PathView, to: PathView, error: Seq<char> },
    FileIOError(Seq<char>),
    ShouldNotRotate(PathView),
    InternalError(Seq<char>),
    RotationQueueFull,
    SetFilePermissionsError { path: PathView, error: Seq<char> },
    InvalidXZCompressionLevel { level: u32 },
}

impl View for LogRollerError {
    type V = ErrorView;

    open spec fn view(&self) -> ErrorView {
        match self {
            LogRollerError::CreateDirectoryFailed(path, error) => ErrorView::CreateDirectoryFailed(
                path@,
                error@,
            ),
            LogRollerError::CreateFileFailed(path, error) => ErrorView::CreateFileFailed(
                path@,
                error@,
            ),
            LogRollerError::GetNaiveTimeFailed => ErrorView::GetNaiveTimeFailed,
            LogRollerError::InvalidRotationType(kind) => ErrorView::InvalidRotationType(kind@),
            LogRollerError::GetNextFilePathError(path) => ErrorView::GetNextFilePathError(path@),
            LogRollerError::RenameFileError { from, to, error } => ErrorView::RenameFileError {
                from: from@,
                to: to@,
                error: error@,
            },
            LogRollerError::FileIOError(error) => ErrorView::FileIOError(error@),
            LogRollerError::ShouldNotRotate(path) => ErrorView::ShouldNotRotate(path@),
            LogRollerError::InternalError(error) => ErrorView::InternalError(error@),
            LogRollerError::RotationQueueFull => ErrorView::RotationQueueFull,
            LogRollerError::SetFilePermissionsError { path, error } =>
                ErrorView::SetFilePermissionsError { path: path@, error: error@ },
            LogRollerError::InvalidXZCompressionLevel { level } =>
                ErrorView::InvalidXZCompressionLevel { level: *level },
        }
    }
}

} // verus!
