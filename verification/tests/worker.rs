use thread_pool::{Action, JobQueue, Message, ResultChannel, Worker};

type Job = Box<dyn FnOnce() -> u32 + Send + 'static>;

fn fresh() -> Worker<u32, Job> {
    Worker::new()
}

#[test]
fn queue_is_first_in_first_out() {
    let mut q: JobQueue<fn() -> u32> = JobQueue::new();
    assert!(q.is_empty());
    assert!(q.dequeue().is_none());
    fn one() -> u32 {
        1
    }
    fn two() -> u32 {
        2
    }
    q.enqueue(Message::Work(one));
    q.enqueue(Message::Terminate);
    q.enqueue(Message::Work(two));
    assert_eq!(q.len(), 3);
    assert!(!q.is_empty());
    match q.dequeue() {
        Some(Message::Work(f)) => assert_eq!(f(), 1),
        _ => panic!("expected the first computation"),
    }
    let second = q.dequeue().unwrap();
    assert!(!second.is_work());
    match q.dequeue() {
        Some(Message::Work(f)) => assert_eq!(f(), 2),
        _ => panic!("expected the second computation"),
    }
    assert!(q.dequeue().is_none());
    assert_eq!(q.len(), 0);
}

#[test]
fn channel_is_first_in_first_out() {
    let mut c: ResultChannel<u32> = ResultChannel::new();
    assert_eq!(c.collect(), None);
    c.publish(5);
    c.publish(3);
    c.publish(9);
    assert_eq!(c.len(), 3);
    assert_eq!(c.collect(), Some(5));
    assert_eq!(c.collect(), Some(3));
    assert_eq!(c.collect(), Some(9));
    assert_eq!(c.collect(), None);
}

#[test]
fn polling_an_empty_queue_asks_for_sleep() {
    let mut q: JobQueue<Job> = JobQueue::new();
    let (w, a) = fresh().poll(&mut q, 250);
    assert_eq!(a, Action::Sleep(250));
    assert!(matches!(w, Worker::Polling));
    assert_eq!(w.action(), Action::Poll);
}

#[test]
fn worker_runs_and_publishes_one_job() {
    let mut q: JobQueue<Job> = JobQueue::new();
    let mut c: ResultChannel<u32> = ResultChannel::new();
    q.enqueue(Message::Work(Box::new(|| 6 * 7)));
    q.enqueue(Message::Work(Box::new(|| 1)));
    let (w, a) = fresh().poll(&mut q, 10);
    assert_eq!(a, Action::Run);
    assert!(matches!(w, Worker::Executing(_)));
    assert_eq!(q.len(), 1);
    let (w, a) = w.execute();
    assert_eq!(a, Action::Publish);
    assert!(matches!(w, Worker::Publishing(42)));
    assert_eq!(c.len(), 0);
    let (w, a) = w.publish(&mut c);
    assert_eq!(a, Action::Poll);
    assert!(matches!(w, Worker::Polling));
    assert_eq!(c.collect(), Some(42));
    assert_eq!(q.len(), 1);
}

#[test]
fn sentinel_stops_the_worker_at_once() {
    let mut q: JobQueue<Job> = JobQueue::new();
    q.enqueue(Message::Terminate);
    q.enqueue(Message::Work(Box::new(|| 8)));
    let (w, a) = fresh().poll(&mut q, 10);
    assert_eq!(a, Action::Stop);
    assert!(w.has_exited());
    assert_eq!(q.len(), 1);
    let (w, a) = w.poll(&mut q, 10);
    assert_eq!(a, Action::Stop);
    assert!(w.has_exited());
    assert_eq!(q.len(), 1);
}

#[test]
fn steps_out_of_turn_change_nothing() {
    let mut q: JobQueue<Job> = JobQueue::new();
    let mut c: ResultChannel<u32> = ResultChannel::new();
    q.enqueue(Message::Work(Box::new(|| 4)));
    let (w, a) = fresh().execute();
    assert_eq!(a, Action::Poll);
    let (w, a) = w.publish(&mut c);
    assert_eq!(a, Action::Poll);
    assert_eq!(c.len(), 0);
    let (w, _) = w.poll(&mut q, 10);
    let (w, a) = w.poll(&mut q, 10);
    assert_eq!(a, Action::Run);
    assert!(matches!(w, Worker::Executing(_)));
    let (w, a) = w.publish(&mut c);
    assert_eq!(a, Action::Run);
    assert_eq!(c.len(), 0);
    let (w, _) = w.execute();
    let (w, a) = w.execute();
    assert_eq!(a, Action::Publish);
    assert!(matches!(w, Worker::Publishing(4)));
    assert!(!w.has_exited());
}

#[test]
fn publish_to_a_consumer_that_hung_up_is_swallowed() {
    let mut q: JobQueue<Job> = JobQueue::new();
    let mut c: ResultChannel<u32> = ResultChannel::new();
    assert!(c.is_listening());
    assert!(c.publish(1));
    c.hang_up();
    assert!(!c.is_listening());
    assert!(!c.publish(2));
    assert_eq!(c.len(), 1);
    q.enqueue(Message::Work(Box::new(|| 3)));
    let (w, _) = fresh().poll(&mut q, 10);
    let (w, _) = w.execute();
    let (w, a) = w.publish(&mut c);
    assert_eq!(a, Action::Poll);
    assert!(matches!(w, Worker::Polling));
    assert_eq!(c.len(), 1);
    assert_eq!(c.collect(), Some(1));
    assert_eq!(c.collect(), None);
}
