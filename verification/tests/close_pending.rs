use lntrn_compositor::close_pending::{
    close_verdict, ClosePendingQueue, CloseVerdict, ANSWER_TIMEOUT_NANOS, COMMIT_GRACE_NANOS,
};

const MS: u64 = 1_000_000;

#[test]
fn dead_client_is_forgotten() {
    assert_eq!(close_verdict(false, false, 0, 0), CloseVerdict::Forget);
    assert_eq!(close_verdict(false, true, 0, 10_000 * MS), CloseVerdict::Forget);
}

#[test]
fn client_drawing_after_grace_gets_window_back() {
    assert_eq!(close_verdict(true, true, 1_000 * MS, 1_000 * MS + COMMIT_GRACE_NANOS), CloseVerdict::BringBack);
    assert_eq!(close_verdict(true, true, 1_000 * MS, 1_000 * MS + COMMIT_GRACE_NANOS - 1), CloseVerdict::Wait);
    assert_eq!(close_verdict(true, false, 1_000 * MS, 1_000 * MS + COMMIT_GRACE_NANOS), CloseVerdict::Wait);
}

#[test]
fn silent_live_client_gets_window_back_after_timeout() {
    assert_eq!(close_verdict(true, false, 0, ANSWER_TIMEOUT_NANOS), CloseVerdict::BringBack);
    assert_eq!(close_verdict(true, false, 0, ANSWER_TIMEOUT_NANOS - 1), CloseVerdict::Wait);
}

#[test]
fn clock_reading_earlier_counts_as_no_time() {
    assert_eq!(close_verdict(true, true, 5_000 * MS, 0), CloseVerdict::Wait);
}

#[test]
fn sending_twice_keeps_one_entry() {
    let mut q: ClosePendingQueue<&str> = ClosePendingQueue::new();
    assert!(q.is_empty());
    q.send_close_pending(1, 0, "first");
    q.send_close_pending(2, 10, "second");
    q.send_close_pending(1, 20, "again");
    let surfaces: Vec<u64> = q.entries.iter().map(|p| p.surface).collect();
    assert_eq!(surfaces, vec![2, 1]);
    assert_eq!(q.entries[1].sent_at_nanos, 20);
    assert_eq!(q.entries[1].payload, "again");
}

#[test]
fn commit_marks_only_that_surface() {
    let mut q: ClosePendingQueue<()> = ClosePendingQueue::new();
    q.send_close_pending(1, 0, ());
    q.send_close_pending(2, 0, ());
    q.note_close_pending_commit(2);
    assert!(!q.entries[0].committed);
    assert!(q.entries[1].committed);
}

#[test]
fn settle_partitions_the_queue() {
    let mut q: ClosePendingQueue<u32> = ClosePendingQueue::new();
    q.send_close_pending(1, 0, 10);
    q.send_close_pending(2, 0, 20);
    q.send_close_pending(3, 1_900 * MS, 30);
    q.send_close_pending(4, 0, 40);
    q.note_close_pending_commit(2);
    let settled = q.tick_close_pending(&vec![false, true, true, true], 1_950 * MS);
    let forgotten: Vec<u64> = settled.forgotten.iter().map(|p| p.surface).collect();
    let back: Vec<u64> = settled.brought_back.iter().map(|p| p.surface).collect();
    let waiting: Vec<u64> = q.entries.iter().map(|p| p.surface).collect();
    assert_eq!(forgotten, vec![1]);
    assert_eq!(back, vec![2]);
    assert_eq!(waiting, vec![3, 4]);
    assert!(!q.is_empty());
}

#[test]
fn settle_after_timeout_empties_the_queue() {
    let mut q: ClosePendingQueue<()> = ClosePendingQueue::new();
    q.send_close_pending(1, 0, ());
    q.send_close_pending(2, 0, ());
    let settled = q.tick_close_pending(&vec![true, true], ANSWER_TIMEOUT_NANOS);
    assert_eq!(settled.brought_back.len(), 2);
    assert!(q.is_empty());
}
