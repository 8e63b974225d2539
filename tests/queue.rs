use thread_pool::{JobQueue, Received};

#[test]
fn queue_delivers_in_fifo_order() {
    let mut q: JobQueue<&str> = JobQueue::new(1);
    assert!(q.send("a").is_ok());
    assert!(q.send("b").is_ok());
    assert_eq!(q.pending_len(), 2);
    assert!(matches!(q.receive(), Received::Job("a")));
    assert!(matches!(q.receive(), Received::Job("b")));
    assert!(matches!(q.receive(), Received::Empty));
}

#[test]
fn queue_without_receivers_hands_job_back() {
    let mut q: JobQueue<String> = JobQueue::new(1);
    q.release_receiver();
    assert_eq!(q.receivers(), 0);
    match q.send(String::from("job")) {
        Err(d) => assert_eq!(d.0, "job"),
        Ok(()) => panic!("send succeeded with no receiver"),
    }
    assert_eq!(q.pending_len(), 0);
}

#[test]
fn closed_queue_reports_closed_only_when_empty() {
    let mut q: JobQueue<u8> = JobQueue::new(2);
    assert!(q.send(9).is_ok());
    q.close();
    assert!(!q.sender_open());
    assert!(matches!(q.receive(), Received::Job(9)));
    assert!(matches!(q.receive(), Received::Closed));
}
