use homework::thread_pool::JobCount;

#[test]
fn job_count_wakes_at_zero() {
    let mut c = JobCount::new();
    assert!(c.is_empty());
    c.start_job();
    c.start_job();
    assert_eq!(c.pending(), 2);
    assert!(!c.finish_job());
    assert!(!c.is_empty());
    assert!(c.finish_job());
    assert!(c.is_empty());
}
