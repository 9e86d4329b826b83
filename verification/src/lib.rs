//! LogRoller rolls over log files based on size or age, with a choice of time
//! zones and of compression methods.
//!
//! This is the part of it that decides: when a log is rotated, what its files are
//! called, which steps a rotation takes and in which order, which files are too
//! old to keep, and what state a log roller is in afterwards. It opens no file and
//! starts no thread. Whoever does that hands in what was found or what came of it,
//! and gets back what to do next.
//!
//! A log roller is configured with `LogRollerBuilder`. After each write
//! `LogRoller::after_write` tells whether the log is to be rotated; a rotation is
//! carried out by following the plan that `LogRoller::begin_rollover` gives, and
//! its outcome goes to `LogRoller::finish_rollover`.

pub mod builder;
pub mod calendar;
pub mod codec;
pub mod create;
pub mod directory;
pub mod error;
pub mod expression;
pub mod history;
pub mod lifecycle;
pub mod meta;
pub mod numbering;
pub mod pattern;
pub mod retention;
pub mod roller;
pub mod rollover;
pub mod rotation;
pub mod text;
pub mod thread_pool;

pub use builder::LogRollerBuilder;
pub use error::LogRollerError;
pub use meta::TimeZone;
pub use roller::LogRoller;
pub use rotation::{Compression, Rotation, RotationAge, RotationSize};
pub use thread_pool::SubmitError;
