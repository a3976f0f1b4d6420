use simple_web_app::pool::{
    FailureRecord, Job, Message, ShutdownReport, ThreadPool, Worker, WorkerState,
};

fn job(id: u64) -> Job {
    Job { id, fails: false }
}

fn failing_job(id: u64) -> Job {
    Job { id, fails: true }
}

#[test]
fn new_pool_has_idle_numbered_workers() {
    let pool = ThreadPool::new(4);
    assert_eq!(pool.workers.len(), 4);
    for (slot, worker) in pool.workers.iter().enumerate() {
        assert_eq!(worker.id, slot);
        assert!(worker.handle_present);
        assert_eq!(worker.state, WorkerState::Running);
    }
    assert!(pool.queue.is_empty());
    assert!(pool.executed.is_empty());
    assert!(pool.failures.is_empty());
}

#[test]
fn fresh_pool_teardown_terminates_all_workers() {
    for n in 1..6 {
        let mut pool = ThreadPool::new(n);
        let report = pool.shutdown();
        assert_eq!(report.signals_sent, n);
        assert_eq!(report.workers_joined, n);
        for worker in &pool.workers {
            assert_eq!(worker.state, WorkerState::Terminated);
            assert!(!worker.handle_present);
        }
        assert!(pool.queue.is_empty());
        assert!(pool.executed.is_empty());
    }
}

#[test]
fn teardown_of_three_workers_sends_exactly_three_signals() {
    let mut pool = ThreadPool::new(3);
    let report = pool.shutdown();
    assert_eq!(
        report,
        ShutdownReport {
            signals_sent: 3,
            workers_joined: 3
        }
    );
}

#[test]
fn execute_enqueues_in_submission_order() {
    let mut pool = ThreadPool::new(2);
    pool.execute(job(7));
    pool.execute(job(8));
    assert_eq!(pool.queue.len(), 2);
    assert_eq!(pool.queue[0], Message::NewJob(job(7)));
    assert_eq!(pool.queue[1], Message::NewJob(job(8)));
}

#[test]
fn every_queued_job_runs_exactly_once_before_teardown_completes() {
    let mut pool = ThreadPool::new(2);
    for id in 0..10 {
        pool.execute(job(id));
    }
    pool.shutdown();
    assert_eq!(pool.executed, (0..10).collect::<Vec<u64>>());
    assert!(pool.queue.is_empty());
}

#[test]
fn dequeue_delivers_each_job_to_exactly_one_worker() {
    let mut pool = ThreadPool::new(2);
    pool.execute(job(1));
    pool.execute(job(2));
    pool.worker_receive(0);
    assert_eq!(pool.workers[0].state, WorkerState::Executing(job(1)));
    assert_eq!(pool.workers[1].state, WorkerState::Running);
    assert_eq!(pool.queue.len(), 1);
    pool.worker_receive(1);
    assert_eq!(pool.workers[1].state, WorkerState::Executing(job(2)));
    assert!(pool.queue.is_empty());
    pool.worker_complete(0);
    pool.worker_complete(1);
    let mut executed = pool.executed.clone();
    executed.sort();
    assert_eq!(executed, vec![1, 2]);
    pool.shutdown();
    assert_eq!(pool.executed.len(), 2);
}

#[test]
fn concurrent_producers_jobs_are_counted_once_each() {
    // Two producers interleave their submissions; the final execution count
    // equals the number of submissions, with no duplication and no loss.
    let mut pool = ThreadPool::new(3);
    for round in 0..5 {
        pool.execute(job(round));
        pool.execute(job(100 + round));
    }
    pool.shutdown();
    assert_eq!(pool.executed.len(), 10);
    for id in (0..5).chain(100..105) {
        assert_eq!(pool.executed.iter().filter(|&&e| e == id).count(), 1);
    }
}

#[test]
fn failing_job_does_not_stop_its_worker() {
    let mut pool = ThreadPool::new(1);
    pool.execute(failing_job(1));
    pool.execute(job(2));
    pool.worker_receive(0);
    pool.worker_complete(0);
    assert_eq!(pool.workers[0].state, WorkerState::Running);
    assert_eq!(
        pool.failures,
        vec![FailureRecord {
            worker_id: 0,
            job_id: 1
        }]
    );
    pool.worker_receive(0);
    pool.worker_complete(0);
    assert_eq!(pool.executed, vec![1, 2]);
    assert_eq!(pool.failures.len(), 1);
    pool.shutdown();
}

#[test]
fn failing_job_does_not_stop_other_workers() {
    let mut pool = ThreadPool::new(2);
    pool.execute(failing_job(5));
    pool.execute(job(6));
    pool.worker_receive(0);
    pool.worker_complete(0);
    pool.worker_receive(1);
    pool.worker_complete(1);
    assert_eq!(pool.executed, vec![5, 6]);
    assert_eq!(
        pool.failures,
        vec![FailureRecord {
            worker_id: 0,
            job_id: 5
        }]
    );
    pool.shutdown();
}

#[test]
fn hundred_jobs_on_four_workers_all_logged_exactly_once() {
    let mut pool = ThreadPool::new(4);
    for id in 0..100 {
        pool.execute(job(id));
    }
    let report = pool.shutdown();
    assert_eq!(report.signals_sent, 4);
    assert_eq!(pool.executed.len(), 100);
    for id in 0..100 {
        assert_eq!(pool.executed.iter().filter(|&&e| e == id).count(), 1);
    }
    for worker in &pool.workers {
        assert_eq!(worker.state, WorkerState::Terminated);
    }
}

#[test]
fn submission_after_teardown_is_dropped_not_fatal() {
    let mut pool = ThreadPool::new(2);
    pool.shutdown();
    pool.execute(job(9));
    assert!(pool.queue.is_empty());
    assert!(pool.executed.is_empty());
}

#[test]
fn worker_terminates_on_terminal_signal_and_consumes_no_more() {
    let mut pool = ThreadPool::new(1);
    pool.queue.push(Message::Terminate);
    pool.execute(job(3));
    pool.worker_receive(0);
    assert_eq!(pool.workers[0].state, WorkerState::Terminated);
    // The job behind the terminal signal stays queued: terminated workers
    // consume nothing further.
    assert_eq!(pool.queue, vec![Message::NewJob(job(3))]);
    assert!(pool.executed.is_empty());
}

#[test]
fn run_worker_drains_jobs_up_to_terminal_signal() {
    let mut pool = ThreadPool::new(1);
    pool.execute(job(1));
    pool.execute(failing_job(2));
    pool.queue.push(Message::Terminate);
    pool.run_worker(0);
    assert_eq!(pool.executed, vec![1, 2]);
    assert_eq!(
        pool.failures,
        vec![FailureRecord {
            worker_id: 0,
            job_id: 2
        }]
    );
    assert_eq!(pool.workers[0].state, WorkerState::Terminated);
    assert!(pool.queue.is_empty());
}

#[test]
fn teardown_skips_workers_whose_handle_is_gone() {
    let mut pool = ThreadPool::new(2);
    pool.workers[0] = Worker {
        id: 0,
        handle_present: false,
        state: WorkerState::Terminated,
    };
    let report = pool.shutdown();
    assert_eq!(report.signals_sent, 1);
    assert_eq!(report.workers_joined, 1);
    for worker in &pool.workers {
        assert_eq!(worker.state, WorkerState::Terminated);
        assert!(!worker.handle_present);
    }
}

#[test]
fn channel_open_reflects_worker_states() {
    let mut pool = ThreadPool::new(2);
    assert!(pool.channel_open());
    pool.shutdown();
    assert!(!pool.channel_open());
}
