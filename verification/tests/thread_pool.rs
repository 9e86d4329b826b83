use logroller::thread_pool::{
    pool_failure_text, pool_size, submitted, PoolState, SendOutcome, ThreadPool, TASK_QUEUE_LIMIT,
};
use logroller::{LogRollerError, SubmitError};

#[test]
fn four_workers_unless_asked_otherwise() {
    assert_eq!(pool_size(None), 4);
    assert_eq!(pool_size(Some("")), 4);
    assert_eq!(pool_size(Some("many")), 4);
    assert_eq!(pool_size(Some("-1")), 4);
    assert_eq!(pool_size(Some("8")), 8);
    assert_eq!(pool_size(Some("0")), 0);
    assert_eq!(TASK_QUEUE_LIMIT, 1024);
}

#[test]
fn tasks_that_are_not_taken_are_errors() {
    assert!(matches!(SubmitError::QueueFull.to_rotation_error(), LogRollerError::RotationQueueFull));
    match SubmitError::Disconnected.to_rotation_error() {
        LogRollerError::InternalError(message) => {
            assert_eq!(message, "Failed to submit rotation task: worker pool disconnected")
        }
        other => panic!("{:?}", other),
    }
}

#[test]
fn a_pool_that_does_not_start_is_told() {
    assert_eq!(
        pool_failure_text("out of threads"),
        "Failed to initialize rotation worker pool: out of threads"
    );
}

#[test]
fn the_queue_takes_tasks_until_it_is_full() {
    let (pool, tasks) = ThreadPool::<usize>::new();
    for i in 0..TASK_QUEUE_LIMIT {
        assert!(pool.has_capacity());
        assert!(matches!(pool.state(), PoolState::Ready));
        assert_eq!(pool.submit(i), Ok(()));
    }
    assert!(!pool.has_capacity());
    assert!(matches!(pool.state(), PoolState::Full));
    assert_eq!(pool.submit(7), Err(SubmitError::QueueFull));
    assert_eq!(tasks.recv(), Ok(0));
    assert_eq!(pool.submit(7), Ok(()));
}

#[test]
fn without_a_worker_no_task_is_taken() {
    let (pool, tasks) = ThreadPool::<usize>::new();
    drop(tasks);
    assert_eq!(pool.submit(1), Err(SubmitError::Disconnected));
}

#[test]
fn what_came_of_sending_a_task() {
    assert_eq!(submitted(SendOutcome::Sent), Ok(()));
    assert_eq!(submitted(SendOutcome::Full), Err(SubmitError::QueueFull));
    assert_eq!(submitted(SendOutcome::Disconnected), Err(SubmitError::Disconnected));
}
