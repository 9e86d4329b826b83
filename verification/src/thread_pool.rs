//! The queue of the worker pool for compression and cleanup.
use crate::error::{ErrorView, LogRollerError};
use crate::text::{parse_usize, parsed, to_chars};
use crossbeam_channel::{Receiver, Sender};
use vstd::prelude::*;

verus! {

/// How many tasks can wait for a worker.
pub const TASK_QUEUE_LIMIT: usize = 1024;

/// How many workers there are where nothing else is asked for.
pub const DEFAULT_POOL_SIZE: usize = 4;

/// Why the pool did not take a task.
#[derive(Debug, Clone, Copy, PartialEq, Eq, Structural)]
pub enum SubmitError {
    /// As many tasks as the queue holds are waiting.
    QueueFull,
    /// There is no worker.
    Disconnected,
}

impl SubmitError {
    /// The error of a rotation that the pool did not take.
    pub open spec fn rotation_error(self) -> ErrorView {
        match self {
            SubmitError::QueueFull => ErrorView::RotationQueueFull,
            SubmitError::Disconnected => ErrorView::InternalError(
                "Failed to submit rotation task: worker pool disconnected"@,
            ),
        }
    }

    /// The error of a rotation that the pool did not take.
    pub fn to_rotation_error(&self) -> (r: LogRollerError)
        ensures
            r@ == self.rotation_error(),
            *self is QueueFull <==> r is RotationQueueFull,
            *self is Disconnected ==> (r matches LogRollerError::InternalError(message) && message@
                == "Failed to submit rotation task: worker pool disconnected"@),
    {
        match self {
            SubmitError::QueueFull => LogRollerError::RotationQueueFull,
            SubmitError::Disconnected => LogRollerError::InternalError(
                String::from_str("Failed to submit rotation task: worker pool disconnected"),
            ),
        }
    }
}

/// The message where the worker pool could not be started.
pub open spec fn pool_failure(error: Seq<char>) -> Seq<char> {
    "Failed to initialize rotation worker pool: "@ + error
}

/// The message where the worker pool could not be started.
pub fn pool_failure_text(error: &str) -> (r: String)
    ensures
        r@ == pool_failure(error@),
        r@ == "Failed to initialize rotation worker pool: "@ + error@,
{
    let mut text = String::from_str("Failed to initialize rotation worker pool: ");
    text.append(error);
    text
}

/// The number of workers that the value of the environment variable asks for:
/// the number that it spells, or four where it is not set or spells none.
pub open spec fn pool_size_for(setting: Option<Seq<char>>) -> usize {
    match setting {
        Some(text) => match parsed(text) {
            Some(n) => n,
            None => DEFAULT_POOL_SIZE,
        },
        None => DEFAULT_POOL_SIZE,
    }
}

/// The number of workers that the value of `LOGROLLER_THREAD_POOL_SIZE` asks for.
pub fn pool_size(setting: Option<&str>) -> (r: usize)
    ensures
        r == pool_size_for(
            match setting {
                Some(text) => Some(text@),
                None => None,
            },
        ),
        setting is None ==> r == 4,
        setting matches Some(text) ==> match parsed(text@) {
            Some(n) => r == n,
            None => r == 4,
        },
{
    match setting {
        Some(text) => match parse_usize(&to_chars(text)) {
            Some(n) => n,
            None => DEFAULT_POOL_SIZE,
        },
        None => DEFAULT_POOL_SIZE,
    }
}

/// The sending end of a channel of crossbeam.
#[verifier::external_type_specification]
#[verifier::external_body]
#[verifier::reject_recursive_types(T)]
pub struct ExSender<T>(crossbeam_channel::Sender<T>);

/// The receiving end of a channel of crossbeam.
#[verifier::external_type_specification]
#[verifier::external_body]
#[verifier::reject_recursive_types(T)]
pub struct ExReceiver<T>(crossbeam_channel::Receiver<T>);

/// What came of sending a task.
#[derive(Debug, Clone, Copy, PartialEq, Eq, Structural)]
pub enum SendOutcome {
    /// The task is in the queue.
    Sent,
    /// The queue is full.
    Full,
    /// No worker takes tasks from the queue.
    Disconnected,
}

/// What can be seen of a task from the channel on which its end is told.
#[derive(Debug, Clone, Copy, PartialEq, Eq, Structural)]
pub enum TaskState {
    /// The task has told its end.
    Finished,
    /// The task has not told its end, and still can.
    Running,
    /// The task cannot tell its end any more, or has told it before.
    Gone,
}

/// What can be said of the worker pool when a rotation is due.
#[derive(Debug)]
pub enum PoolState {
    /// It could not be started, with this message.
    Unavailable(String),
    /// As many tasks as its queue holds are waiting.
    Full,
    /// It can take a task.
    Ready,
}

/// A channel that holds `limit` messages at most.
///
/// Calls `crossbeam_channel::bounded`. Nothing is said of the channel: what is in
/// it depends on the threads that use it.
#[verifier::external_body]
fn bounded_channel<T>(limit: usize) -> (r: (Sender<T>, Receiver<T>)) {
    crossbeam_channel::bounded(limit)
}

/// Tells whether the channel is full.
///
/// Calls `is_full` of `crossbeam_channel::Sender`. Nothing is said of the answer: it
/// depends on the threads that use the channel.
#[verifier::external_body]
fn is_full<T>(sender: &Sender<T>) -> (r: bool) {
    sender.is_full()
}

/// Puts the message into the channel, if that can be done without waiting.
///
/// Calls `try_send` of `crossbeam_channel::Sender`. Nothing is said of the outcome:
/// it depends on the threads that use the channel.
#[verifier::external_body]
fn try_send<T>(sender: &Sender<T>, message: T) -> (r: SendOutcome) {
    match sender.try_send(message) {
        Ok(()) => SendOutcome::Sent,
        Err(crossbeam_channel::TrySendError::Full(_)) => SendOutcome::Full,
        Err(crossbeam_channel::TrySendError::Disconnected(_)) => SendOutcome::Disconnected,
    }
}

/// Looks for the message by which a task tells its end.
///
/// Calls `try_recv` of `crossbeam_channel::Receiver`. Nothing is said of the
/// outcome: it depends on the thread that works on the task.
#[verifier::external_body]
fn task_state(done: &Receiver<()>) -> (r: TaskState) {
    match done.try_recv() {
        Ok(()) => TaskState::Finished,
        Err(crossbeam_channel::TryRecvError::Empty) => TaskState::Running,
        Err(crossbeam_channel::TryRecvError::Disconnected) => TaskState::Gone,
    }
}

/// Looking for the message by which a task tells its end can give this state.
pub closed spec fn can_read(done: Receiver<()>, state: TaskState) -> bool {
    call_ensures(task_state, (&done,), state)
}

/// What is seen of a task when its message is looked for.
pub fn read_task(done: &Receiver<()>) -> (r: TaskState)
    ensures
        can_read(*done, r),
{
    task_state(done)
}

/// Whether the pool took a task, by what came of sending it.
pub open spec fn submission(outcome: SendOutcome) -> Result<(), SubmitError> {
    match outcome {
        SendOutcome::Sent => Ok(()),
        SendOutcome::Full => Err(SubmitError::QueueFull),
        SendOutcome::Disconnected => Err(SubmitError::Disconnected),
    }
}

/// Whether the pool took a task, by what came of sending it.
pub fn submitted(outcome: SendOutcome) -> (r: Result<(), SubmitError>)
    ensures
        r == submission(outcome),
        r is Ok <==> outcome is Sent,
        r matches Err(e) ==> (e is QueueFull <==> outcome is Full),
{
    match outcome {
        SendOutcome::Sent => Ok(()),
        SendOutcome::Full => Err(SubmitError::QueueFull),
        SendOutcome::Disconnected => Err(SubmitError::Disconnected),
    }
}

/// The queue of a pool of workers for tasks of the type `T`.
#[derive(Debug)]
#[verifier::reject_recursive_types(T)]
pub struct ThreadPool<T> {
    sender: Sender<T>,
}

impl<T> ThreadPool<T> {
    /// The pool sends to a channel that crossbeam made with the limit, and
    /// `receiver` is the other end of that channel.
    pub closed spec fn made_with(self, receiver: Receiver<T>, limit: usize) -> bool {
        call_ensures(bounded_channel::<T>, (limit,), (self.sender, receiver))
    }

    /// Asked whether it is full, the channel of the pool can answer `full`.
    pub closed spec fn answers_full(self, full: bool) -> bool {
        call_ensures(is_full::<T>, (&self.sender,), full)
    }

    /// Sending the task to the channel of the pool can have the outcome.
    pub closed spec fn answers_task(self, task: T, outcome: SendOutcome) -> bool {
        call_ensures(try_send::<T>, (&self.sender, task), outcome)
    }

    /// A queue for the tasks of a pool that holds as many as can wait, and the end
    /// at which its workers take them out.
    pub fn new() -> (r: (ThreadPool<T>, Receiver<T>))
        ensures
            r.0.made_with(r.1, TASK_QUEUE_LIMIT),
            r.0.made_with(r.1, 1024),
    {
        let (sender, receiver) = bounded_channel(TASK_QUEUE_LIMIT);
        (ThreadPool { sender }, receiver)
    }

    /// Tells whether the queue can take a task: it can unless its channel answers
    /// that it is full.
    pub fn has_capacity(&self) -> (r: bool)
        ensures
            self.answers_full(!r),
    {
        !is_full(&self.sender)
    }

    /// Whether a rotation can begin: only where the queue can take its task.
    pub fn state(&self) -> (r: PoolState)
        ensures
            match r {
                PoolState::Ready => self.answers_full(false),
                PoolState::Full => self.answers_full(true),
                PoolState::Unavailable(_) => false,
            },
    {
        if self.has_capacity() {
            PoolState::Ready
        } else {
            PoolState::Full
        }
    }

    /// Puts a task into the queue, unless it is full or there is no worker.
    pub fn submit(&self, task: T) -> (r: Result<(), SubmitError>)
        ensures
            exists|outcome: SendOutcome| #[trigger]
                self.answers_task(task, outcome) && r == submission(outcome) && (r is Ok
                    <==> outcome is Sent) && (r matches Err(e) ==> (e is QueueFull
                    <==> outcome is Full)),
    {
        let outcome = try_send(&self.sender, task);
        assert(self.answers_task(task, outcome));
        submitted(outcome)
    }
}

} // verus!
