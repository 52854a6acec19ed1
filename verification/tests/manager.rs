use kdam::{Indicator, RowManager, Writer};

fn ind(text: &str, leave: bool) -> Indicator {
    Indicator::new(Writer::Stderr, leave, text.as_bytes().to_vec())
}

#[test]
fn new_manager_is_empty() {
    let m = RowManager::new(3);
    assert_eq!(m.len(), 0);
    assert_eq!(m.acquired_count(), 0);
    for s in 0..3 {
        assert!(!m.is_acquired(s));
        assert!(!m.is_available(s));
    }
}

#[test]
fn capacity_from_height() {
    assert_eq!(RowManager::capacity_for_height(Some(10)), 8);
    assert_eq!(RowManager::capacity_for_height(Some(2)), 0);
    assert_eq!(RowManager::capacity_for_height(Some(1)), 3);
    assert_eq!(RowManager::capacity_for_height(None), 3);
}

#[test]
fn from_window_size_starts_empty() {
    let m = RowManager::from_window_size();
    assert_eq!(m.len(), 0);
    assert_eq!(m.acquired_count(), 0);
}

#[test]
fn first_k_pushes_fill_all_rows() {
    // with capacity k, the first k pushes bind every slot, and the assigned
    // positions are 0..k-1 with no duplicates
    let k: u16 = 3;
    let mut m = RowManager::new(k);
    for i in 0..k {
        let idx = m.push(ind("bar", false)).unwrap();
        assert_eq!(idx, i as usize);
    }
    assert_eq!(m.acquired_count(), k as usize);
    let mut seen = [false; 3];
    for i in 0..k as usize {
        let b = m.get_mut(i).unwrap();
        assert!(!b.disable);
        let p = b.position;
        assert!(p < k);
        assert!(!seen[p as usize]);
        seen[p as usize] = true;
    }
    for s in 0..k {
        assert!(m.is_acquired(s));
    }
}

#[test]
fn push_beyond_capacity_is_queued_disabled() {
    let k: u16 = 3;
    let mut m = RowManager::new(k);
    for _ in 0..k {
        m.push(ind("bar", false)).unwrap();
    }
    let idx = m.push(ind("late", false)).unwrap();
    assert_eq!(idx, 3);
    assert_eq!(m.acquired_count(), 3);
    let late = m.get_mut(idx).unwrap();
    assert!(late.disable);
    assert_eq!(late.position, 3);
    assert!(!m.is_acquired(3));
    assert!(!m.is_available(3));
}

#[test]
fn completed_notify_frees_slot() {
    let mut m = RowManager::new(3);
    m.push(ind("a", false)).unwrap();
    m.push(ind("b", false)).unwrap();
    m.get_mut(1).unwrap().done = true;
    m.notify(1).unwrap();
    assert!(!m.is_acquired(1));
    assert!(m.is_available(1));
    assert!(m.get_mut(1).unwrap().disable);
}

#[test]
fn completed_notify_frees_slot_with_leave() {
    // with the leave flag set the final line goes to the scroll-back first;
    // the freed row 0 is then re-used by compaction for the remaining
    // indicator, so row 1 is the one left free
    let mut m = RowManager::new(3);
    m.push(ind("a", true)).unwrap();
    m.push(ind("b", true)).unwrap();
    m.get_mut(0).unwrap().done = true;
    m.notify(0).unwrap();
    assert!(m.get_mut(0).unwrap().disable);
    assert_eq!(m.get_mut(1).unwrap().position, 0);
    assert!(m.is_acquired(0));
    assert!(!m.is_available(0));
    assert!(m.is_available(1));
    assert!(!m.is_acquired(1));
}

#[test]
fn slack_case_compacts_rows() {
    // capacity 3, indicators on rows 0,1,2; completing row 1 re-numbers the
    // row-2 indicator onto row 1, so no visible indicator stays on row 2
    let mut m = RowManager::new(3);
    m.push(ind("a", false)).unwrap();
    m.push(ind("b", false)).unwrap();
    m.push(ind("c", false)).unwrap();
    m.get_mut(1).unwrap().done = true;
    m.notify(1).unwrap();
    assert_eq!(m.get_mut(0).unwrap().position, 0);
    assert!(!m.get_mut(0).unwrap().disable);
    assert!(m.get_mut(1).unwrap().disable);
    assert_eq!(m.get_mut(2).unwrap().position, 1);
    assert!(!m.get_mut(2).unwrap().disable);
    assert!(m.is_acquired(0));
    assert!(m.is_acquired(1));
    assert!(!m.is_acquired(2));
    assert!(m.is_available(2));
    assert!(!m.is_available(1));
}

#[test]
fn saturated_case_promotes_into_lowest_slot() {
    // capacity 2, three pushed (the third queued); completing the indicator
    // on row 0 promotes the queued one into row 0, not row 1
    let mut m = RowManager::new(2);
    m.push(ind("a", false)).unwrap();
    m.push(ind("b", false)).unwrap();
    m.push(ind("c", false)).unwrap();
    assert!(m.get_mut(2).unwrap().disable);
    m.get_mut(0).unwrap().done = true;
    m.notify(0).unwrap();
    let c = m.get_mut(2).unwrap();
    assert_eq!(c.position, 0);
    assert!(!c.disable);
    assert_eq!(m.get_mut(1).unwrap().position, 1);
    assert!(m.get_mut(0).unwrap().disable);
    assert!(m.is_acquired(0));
    assert!(!m.is_available(0));
}

#[test]
fn remove_frees_held_slot() {
    let mut m = RowManager::new(2);
    m.push(ind("a", false)).unwrap();
    m.push(ind("b", false)).unwrap();
    let gone = m.remove(0);
    assert_eq!(gone.position, 0);
    assert_eq!(m.len(), 1);
    assert!(m.is_available(0));
    assert!(!m.is_acquired(0));
    assert_eq!(m.acquired_count(), 1);
}

#[test]
fn remove_returns_indicator_unchanged() {
    let mut m = RowManager::new(2);
    m.push(ind("work", true)).unwrap();
    let gone = m.remove(0);
    assert!(gone.leave);
    assert!(!gone.done);
    assert_eq!(gone.text, b"work".to_vec());
}

#[test]
fn second_notify_is_stable_in_slack_case() {
    // notifying twice with no intervening change recomputes the same
    // assignment: no position moves again
    let mut m = RowManager::new(3);
    m.push(ind("a", false)).unwrap();
    m.push(ind("b", false)).unwrap();
    m.push(ind("c", false)).unwrap();
    m.get_mut(1).unwrap().done = true;
    m.notify(1).unwrap();
    let p0 = m.get_mut(0).unwrap().position;
    let p2 = m.get_mut(2).unwrap().position;
    m.notify(1).unwrap();
    assert_eq!(m.get_mut(0).unwrap().position, p0);
    assert_eq!(m.get_mut(2).unwrap().position, p2);
    assert!(m.get_mut(1).unwrap().disable);
    assert_eq!(m.acquired_count(), 2);
    assert!(m.is_available(2));
    assert!(!m.is_acquired(2));
}

#[test]
fn interleaved_calls_keep_slot_invariants() {
    // after a mix of pushes, notifications and removals, no slot is both
    // bound and free, and no more slots are bound than there are rows
    let k: u16 = 2;
    let mut m = RowManager::new(k);
    m.push(ind("a", false)).unwrap();
    m.push(ind("b", false)).unwrap();
    m.push(ind("c", false)).unwrap();
    m.get_mut(0).unwrap().done = true;
    m.notify(0).unwrap();
    m.get_mut(1).unwrap().done = true;
    m.notify(1).unwrap();
    m.remove(0);
    m.notify(0).unwrap();
    assert!(m.acquired_count() <= k as usize);
    for s in 0..4 {
        assert!(!(m.is_acquired(s) && m.is_available(s)));
    }
}

#[test]
fn notify_without_completion_changes_nothing() {
    let mut m = RowManager::new(2);
    m.push(ind("a", false)).unwrap();
    m.notify(0).unwrap();
    assert_eq!(m.get_mut(0).unwrap().position, 0);
    assert!(!m.get_mut(0).unwrap().disable);
    assert!(m.is_acquired(0));
    assert_eq!(m.acquired_count(), 1);
}

#[test]
fn push_propagates_draw_errors_unchanged() {
    // the first draw happens through the indicator's writer; when it fails,
    // the manager is left exactly as it was
    let mut m = RowManager::new(2);
    let r = m.push(Indicator::new(Writer::Tty, false, b"x".to_vec()));
    assert!(r.is_err());
    assert_eq!(m.len(), 0);
    assert_eq!(m.acquired_count(), 0);
}

#[test]
fn queued_push_cannot_fail() {
    // beyond capacity nothing is drawn, so even an unservable sink is fine
    let mut m = RowManager::new(0);
    let idx = m.push(Indicator::new(Writer::Tty, false, b"x".to_vec())).unwrap();
    assert_eq!(idx, 0);
    assert!(m.get_mut(0).unwrap().disable);
    assert_eq!(m.acquired_count(), 0);
}

#[test]
fn notify_propagates_status_line_errors() {
    let mut m = RowManager::new(0);
    m.push(Indicator::new(Writer::Tty, false, b"x".to_vec())).unwrap();
    assert!(m.notify(0).is_err());
}

#[test]
fn push_onto_freed_slot_reclaims_it() {
    // a freed slot's number can come up again for a new push; the push binds
    // it and unmarks it, so the two slot sets stay disjoint
    let mut m = RowManager::new(3);
    m.push(ind("a", false)).unwrap();
    m.push(ind("b", false)).unwrap();
    m.push(ind("c", false)).unwrap();
    m.get_mut(2).unwrap().done = true;
    m.notify(2).unwrap();
    assert!(m.is_available(2));
    let idx = m.push(ind("d", false)).unwrap();
    assert_eq!(m.get_mut(idx).unwrap().position, 2);
    assert!(!m.get_mut(idx).unwrap().disable);
    assert!(m.is_acquired(2));
    assert!(!m.is_available(2));
}
