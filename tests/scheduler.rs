use egregoria::scheduler::{frame_log_order, History, TIMING_WINDOW};

#[test]
fn mean_of_samples() {
    let mut h = History::new(TIMING_WINDOW);
    assert_eq!(h.avg(), 0);
    h.add_value(10);
    h.add_value(20);
    h.add_value(31);
    assert_eq!(h.avg(), 20);
}

#[test]
fn oldest_samples_leave_the_window() {
    let mut h = History::new(3);
    for v in [100, 1, 2, 3] {
        h.add_value(v);
    }
    assert_eq!(h.avg(), 2);
    h.add_value(9);
    assert_eq!(h.avg(), (2 + 3 + 9) / 3);
}

#[test]
fn full_window_of_large_samples() {
    let mut h = History::new(TIMING_WINDOW);
    for _ in 0..(TIMING_WINDOW + 7) {
        h.add_value(u64::MAX);
    }
    assert_eq!(h.avg(), u64::MAX);
}

#[test]
fn frame_log_lists_each_system_by_decreasing_mean() {
    let avgs = vec![5, 40, 5, 12, 0];
    let order = frame_log_order(&avgs);
    assert_eq!(order.len(), avgs.len());
    let mut seen = order.clone();
    seen.sort();
    assert_eq!(seen, vec![0, 1, 2, 3, 4]);
    for w in order.windows(2) {
        assert!(avgs[w[0]] >= avgs[w[1]]);
    }
    assert_eq!(order[0], 1);
    assert_eq!(order[1], 3);
    assert_eq!(order[4], 4);
    assert!(frame_log_order(&vec![]).is_empty());
}
