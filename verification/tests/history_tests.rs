use llama_monitor::history::{Rate, SlotHistory, HISTORY_LEN};

const SEC: u64 = 1_000_000_000;

#[test]
fn new_history_is_idle() {
    let h = SlotHistory::new(5, Some(1), 100);
    assert_eq!(h.last_n_decoded, 5);
    assert_eq!(h.last_fetch_time, 100);
    assert!(h.tps_history.is_empty());
    assert_eq!(h.current_tps, Rate::zero());
    assert_eq!(h.last_id_task, Some(1));
    assert!(!h.in_prefill);
}

#[test]
fn new_task_starts_prefill_until_tokens_flow() {
    let mut h = SlotHistory::new(0, None, 0);
    h.update(0, Some(7), true, SEC);
    assert!(h.in_prefill);
    assert_eq!(h.current_tps, Rate { tokens: 0, nanos: SEC });
    // still nothing decoded: prefill goes on
    h.update(0, Some(7), true, 2 * SEC);
    assert!(h.in_prefill);
    // tokens flow: prefill is done
    h.update(10, Some(7), true, 3 * SEC);
    assert!(!h.in_prefill);
    assert_eq!(h.current_tps, Rate { tokens: 10, nanos: SEC });
}

#[test]
fn idle_slot_is_not_in_prefill() {
    let mut h = SlotHistory::new(0, None, 0);
    h.update(0, Some(7), true, SEC);
    assert!(h.in_prefill);
    h.update(0, Some(7), false, 2 * SEC);
    assert!(!h.in_prefill);
}

#[test]
fn same_task_does_not_restart_prefill() {
    let mut h = SlotHistory::new(0, Some(7), 0);
    h.update(0, Some(7), true, SEC);
    assert!(!h.in_prefill);
}

#[test]
fn short_interval_keeps_rate() {
    let mut h = SlotHistory::new(0, Some(1), 0);
    h.update(50, Some(1), true, SEC);
    assert_eq!(h.current_tps, Rate { tokens: 50, nanos: SEC });
    // exactly 0.1 s later: no new measure, the rate stays
    h.update(60, Some(1), true, SEC + 100_000_000);
    assert_eq!(h.current_tps, Rate { tokens: 50, nanos: SEC });
    assert_eq!(h.tps_history.len(), 2);
    assert_eq!(h.last_n_decoded, 60);
}

#[test]
fn counter_reset_zeroes_rate() {
    let mut h = SlotHistory::new(100, Some(1), 0);
    h.update(5, Some(2), true, SEC);
    assert_eq!(h.current_tps, Rate::zero());
}

#[test]
fn clock_going_back_counts_as_no_time() {
    let mut h = SlotHistory::new(0, Some(1), 5 * SEC);
    h.update(10, Some(1), true, SEC);
    assert_eq!(h.current_tps, Rate::zero());
    assert_eq!(h.last_fetch_time, SEC);
}

#[test]
fn window_keeps_last_samples() {
    let mut h = SlotHistory::new(0, Some(1), 0);
    for i in 1..=(HISTORY_LEN as u64 + 5) {
        h.update(i, Some(1), true, i * SEC);
    }
    assert_eq!(h.tps_history.len(), HISTORY_LEN);
    assert_eq!(*h.tps_history.last().unwrap(), Rate { tokens: 1, nanos: SEC });
}
