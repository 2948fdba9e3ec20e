use thread_pool::{Action, Message, ThreadPool};

type Job = Box<dyn FnOnce() -> u64 + Send + 'static>;

fn job(value: u64) -> Message<Job> {
    Message::Work(Box::new(move || value))
}

/// Steps the units round-robin until `want` results were collected.
fn drain(pool: &mut ThreadPool<u64, Job>, want: usize) -> Vec<u64> {
    let mut got = Vec::new();
    let n = pool.worker_count();
    let mut rounds = 0;
    while got.len() < want {
        for i in 0..n {
            pool.step(i);
        }
        while let Some(v) = pool.result.collect() {
            got.push(v);
        }
        rounds += 1;
        assert!(rounds < 10_000, "the pool made no progress");
    }
    got
}

fn sorted(mut v: Vec<u64>) -> Vec<u64> {
    v.sort();
    v
}

#[test]
fn threads() {
    let mut tp = ThreadPool::new(10, 100);
    for i in 0..100 {
        tp.add(Message::Work(Box::new(move || {
            println!("Thread: {}", i);
            i * 100
        })));
    }
    let mut c = 0;
    let mut seen = Vec::new();
    loop {
        for w in 0..10 {
            tp.step(w);
        }
        while let Some(s) = tp.result.collect() {
            println!("Result: {}", s);
            seen.push(s);
            c += 1;
        }
        if c == 100 {
            break;
        }
    }
    seen.sort();
    let expected: Vec<i32> = (0..100).map(|i| i * 100).collect();
    assert_eq!(seen, expected);
    tp.shutdown();
    for w in 0..10 {
        assert!(tp.has_exited(w));
    }
}

#[test]
fn new_pool_is_idle() {
    let pool: ThreadPool<u64, Job> = ThreadPool::new(4, 25);
    assert_eq!(pool.worker_count(), 4);
    assert_eq!(pool.poll_interval(), 25);
    assert_eq!(pool.pending(), 0);
    assert_eq!(pool.result.len(), 0);
    for i in 0..4 {
        assert!(!pool.has_exited(i));
    }
    assert!(pool.has_exited(4));
}

#[test]
fn results_match_jobs_for_any_worker_count() {
    let expected: Vec<u64> = (0..37).map(|i| i * i + 1).collect();
    for workers in [1usize, 2, 10, 37] {
        let mut pool: ThreadPool<u64, Job> = ThreadPool::new(workers, 5);
        for v in &expected {
            pool.add(job(*v));
        }
        assert_eq!(pool.pending(), 37);
        let got = drain(&mut pool, 37);
        assert_eq!(sorted(got), expected);
        assert_eq!(pool.pending(), 0);
        pool.shutdown();
    }
}

#[test]
fn hundred_jobs_ten_workers_no_duplicates_no_omissions() {
    let mut pool: ThreadPool<u64, Job> = ThreadPool::new(10, 100);
    for i in 0..100u64 {
        pool.add(job(i * 100));
    }
    let got = sorted(drain(&mut pool, 100));
    assert_eq!(got.len(), 100);
    for (i, v) in got.iter().enumerate() {
        assert_eq!(*v, i as u64 * 100);
    }
    for i in 0..10 {
        assert_eq!(pool.step(i), Action::Sleep(100));
    }
    assert_eq!(pool.result.len(), 0);
}

#[test]
fn shutdown_with_pending_jobs_terminates() {
    let mut pool: ThreadPool<u64, Job> = ThreadPool::new(3, 50);
    for i in 0..20u64 {
        pool.add(job(i));
    }
    pool.step(0);
    pool.step(1);
    pool.step(1);
    pool.shutdown();
    for i in 0..3 {
        assert!(pool.has_exited(i));
        assert_eq!(pool.step(i), Action::Stop);
    }
    assert_eq!(pool.pending(), 0);
    let mut got = Vec::new();
    while let Some(v) = pool.result.collect() {
        got.push(v);
    }
    assert_eq!(sorted(got), (0..20u64).collect::<Vec<_>>());
}

#[test]
fn shutdown_sends_one_sentinel_per_worker() {
    let mut pool: ThreadPool<u64, Job> = ThreadPool::new(3, 50);
    pool.add(Message::Terminate);
    pool.step(2);
    assert!(pool.has_exited(2));
    pool.shutdown();
    for i in 0..3 {
        assert!(pool.has_exited(i));
    }
    // Three sentinels were enqueued and two units were left to take one each.
    assert_eq!(pool.pending(), 1);
}

#[test]
fn interleaved_submitters_lose_no_job() {
    let mut pool: ThreadPool<u64, Job> = ThreadPool::new(4, 10);
    let mut got = Vec::new();
    for round in 0..20u64 {
        for caller in 0..5u64 {
            pool.add(job(caller * 1000 + round));
            pool.step(((caller + round) % 4) as usize);
        }
        while let Some(v) = pool.result.collect() {
            got.push(v);
        }
    }
    let rest = drain(&mut pool, 100 - got.len());
    got.extend(rest);
    assert_eq!(got.len(), 100);
    let mut expected: Vec<u64> = Vec::new();
    for caller in 0..5u64 {
        for round in 0..20u64 {
            expected.push(caller * 1000 + round);
        }
    }
    assert_eq!(sorted(got), sorted(expected));
    assert_eq!(pool.pending(), 0);
    assert_eq!(pool.result.len(), 0);
}

#[test]
fn zero_workers_accept_jobs_and_produce_nothing() {
    let mut pool: ThreadPool<u64, Job> = ThreadPool::new(0, 10);
    for i in 0..7u64 {
        pool.add(job(i));
    }
    for i in 0..5 {
        assert_eq!(pool.step(i), Action::Stop);
    }
    assert_eq!(pool.pending(), 7);
    assert_eq!(pool.result.len(), 0);
    assert_eq!(pool.result.collect(), None);
    pool.shutdown();
    assert_eq!(pool.pending(), 7);
    assert_eq!(pool.result.len(), 0);
}

#[test]
fn poll_interval_does_not_change_results() {
    let jobs: Vec<u64> = (0..50).map(|i| 3 * i + 7).collect();
    let mut fast: ThreadPool<u64, Job> = ThreadPool::new(4, 0);
    let mut slow: ThreadPool<u64, Job> = ThreadPool::new(4, 5000);
    for v in &jobs {
        fast.add(job(*v));
        slow.add(job(*v));
    }
    let a = sorted(drain(&mut fast, 50));
    let b = sorted(drain(&mut slow, 50));
    assert_eq!(a, b);
    assert_eq!(a, jobs);
    assert_eq!(fast.step(0), Action::Sleep(0));
    assert_eq!(slow.step(0), Action::Sleep(5000));
}

#[test]
fn step_walks_the_worker_loop() {
    let mut pool: ThreadPool<u64, Job> = ThreadPool::new(2, 30);
    assert_eq!(pool.step(0), Action::Sleep(30));
    pool.add(job(11));
    pool.add(Message::Terminate);
    pool.add(job(12));
    assert_eq!(pool.step(0), Action::Run);
    assert_eq!(pool.pending(), 2);
    assert_eq!(pool.result.len(), 0);
    assert_eq!(pool.step(0), Action::Publish);
    assert_eq!(pool.result.len(), 0);
    assert_eq!(pool.step(0), Action::Poll);
    assert_eq!(pool.result.len(), 1);
    assert_eq!(pool.step(1), Action::Stop);
    assert!(pool.has_exited(1));
    assert_eq!(pool.pending(), 1);
    assert_eq!(pool.step(1), Action::Stop);
    assert_eq!(pool.pending(), 1);
    assert_eq!(pool.step(0), Action::Run);
    assert_eq!(pool.step(0), Action::Publish);
    assert_eq!(pool.step(0), Action::Poll);
    assert_eq!(pool.collect(), Some(11));
    assert_eq!(pool.collect(), Some(12));
    assert_eq!(pool.collect(), None);
}

#[test]
fn results_may_overtake_each_other() {
    let mut pool: ThreadPool<u64, Job> = ThreadPool::new(2, 1);
    pool.add(job(1));
    pool.add(job(2));
    pool.step(0);
    pool.step(1);
    pool.step(1);
    pool.step(1);
    pool.step(0);
    pool.step(0);
    assert_eq!(pool.collect(), Some(2));
    assert_eq!(pool.collect(), Some(1));
}

#[test]
fn results_after_hang_up_are_lost_and_workers_go_on() {
    let mut pool: ThreadPool<u64, Job> = ThreadPool::new(1, 20);
    pool.add(job(1));
    pool.add(job(2));
    pool.add(job(3));
    pool.step(0);
    pool.step(0);
    pool.step(0);
    assert_eq!(pool.result.len(), 1);
    pool.hang_up();
    assert!(!pool.result.is_listening());
    assert_eq!(pool.step(0), Action::Run);
    assert_eq!(pool.step(0), Action::Publish);
    assert_eq!(pool.step(0), Action::Poll);
    assert_eq!(pool.result.len(), 1);
    assert_eq!(pool.step(0), Action::Run);
    assert_eq!(pool.pending(), 0);
    pool.shutdown();
    assert!(pool.has_exited(0));
    assert_eq!(pool.collect(), Some(1));
    assert_eq!(pool.collect(), None);
}

#[test]
fn channel_closes_when_all_workers_exited_and_nothing_is_left() {
    let mut pool: ThreadPool<u64, Job> = ThreadPool::new(2, 20);
    assert!(!pool.is_closed());
    pool.add(job(5));
    pool.shutdown();
    assert!(!pool.is_closed());
    assert_eq!(pool.collect(), Some(5));
    assert!(pool.is_closed());
    pool.add(job(6));
    assert_eq!(pool.pending(), 1);
    assert_eq!(pool.step(0), Action::Stop);
    assert_eq!(pool.step(1), Action::Stop);
    assert_eq!(pool.pending(), 1);
    assert!(pool.is_closed());
    let empty: ThreadPool<u64, Job> = ThreadPool::new(0, 20);
    assert!(empty.is_closed());
}
