use rustbpe::scheduler::judge;
use std::cmp::Ordering;
use rustbpe::scheduler::MergeJob;
use rustbpe::scheduler::Scheduler;
use rustbpe::scheduler::Verdict;

#[test]
fn judge_discards_extinct_pairs() {
    assert_eq!(judge(5, 0), Verdict::Discard);
    assert_eq!(judge(5, -3), Verdict::Discard);
}

#[test]
fn judge_requeues_stale_counts() {
    assert_eq!(judge(5, 3), Verdict::Requeue);
    assert_eq!(judge(5, 9), Verdict::Requeue);
}

#[test]
fn judge_accepts_current_counts() {
    assert_eq!(judge(5, 5), Verdict::Accept);
    assert_eq!(judge(1, 1), Verdict::Accept);
}

#[test]
fn pop_on_empty_queue_is_none() {
    let mut queue = Scheduler::new();
    assert!(queue.pop().is_none());
}

#[test]
fn pop_serves_highest_count_first() {
    let mut queue = Scheduler::new();
    queue.push(MergeJob::new((1, 2), 5, &vec![0]));
    queue.push(MergeJob::new((9, 9), 7, &vec![1, 2]));
    queue.push(MergeJob::new((0, 0), 6, &vec![]));
    let first = queue.pop().unwrap();
    assert_eq!((first.pair, first.count), ((9, 9), 7));
    let mut pos = first.positions();
    pos.sort();
    assert_eq!(pos, vec![1, 2]);
    let second = queue.pop().unwrap();
    assert_eq!((second.pair, second.count), ((0, 0), 6));
    let third = queue.pop().unwrap();
    assert_eq!((third.pair, third.count), ((1, 2), 5));
    assert_eq!(third.positions(), vec![0]);
    assert!(queue.pop().is_none());
}

#[test]
fn pop_breaks_ties_by_ascending_pair() {
    let mut queue = Scheduler::new();
    queue.push(MergeJob::new((2, 1), 5, &vec![]));
    queue.push(MergeJob::new((1, 3), 5, &vec![]));
    queue.push(MergeJob::new((1, 2), 5, &vec![]));
    queue.push(MergeJob::new((0, 4_000_000_000), 5, &vec![]));
    let mut order = Vec::new();
    while let Some(job) = queue.pop() {
        order.push(job.pair);
    }
    assert_eq!(order, vec![(0, 4_000_000_000), (1, 2), (1, 3), (2, 1)]);
}

#[test]
fn job_order_is_count_then_pair() {
    let a = MergeJob::new((1, 2), 5, &vec![3]);
    let b = MergeJob::new((1, 3), 5, &vec![4]);
    let c = MergeJob::new((0, 0), 4, &vec![]);
    let d = MergeJob::new((1, 2), 5, &vec![9, 8]);
    assert!(a.outranks(&b));
    assert!(!b.outranks(&a));
    assert!(a.outranks(&c));
    assert!(b.outranks(&c));
    assert!(!c.outranks(&a));
    assert!(!a.outranks(&d));
    assert!(!d.outranks(&a));
}

#[test]
fn job_comparison_is_the_order_of_service() {
    let a = MergeJob::new((1, 2), 5, &vec![3]);
    let b = MergeJob::new((1, 3), 5, &vec![4]);
    let c = MergeJob::new((0, 0), 4, &vec![]);
    let d = MergeJob::new((1, 2), 5, &vec![9, 8]);
    assert!(a > b);
    assert!(b < a);
    assert!(a > c);
    assert!(c < b);
    assert!(a == d);
    assert!(a != b);
    assert_eq!(a.partial_cmp(&b), Some(Ordering::Greater));
    assert_eq!(b.partial_cmp(&a), Some(Ordering::Less));
    assert_eq!(a.partial_cmp(&d), Some(Ordering::Equal));
    assert_eq!(c.partial_cmp(&a), Some(Ordering::Less));
}
