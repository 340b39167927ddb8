use goetia::triggers::{TriggerQueue, TriggerStats};

/// Drives one tick the way the trigger bus does: every processed event
/// emits two children through the depth gate.
fn explode(q: &mut TriggerQueue<u32>) {
    q.begin_tick();
    while let Some(depth) = q.next() {
        for _ in 0..2 {
            if let Some(d) = q.admit_child(depth) {
                q.push_child(d, d);
            }
        }
    }
    q.end_tick();
}

#[test]
fn budget_contains_exponential_chain() {
    let mut q: TriggerQueue<u32> = TriggerQueue::new(100, 1000);
    q.emit_root(0);
    explode(&mut q);
    let s = q.stats();
    assert_eq!(s.processed, 100); // budget held
    assert!(s.dropped_budget > 0);
    assert_eq!(q.pending_len(), 0); // nothing leaks to next tick
    assert_eq!(s.budget_hit_ticks, 1);
    assert_eq!(s.last_tick_processed, 100);
    assert_eq!(s.emitted, 1 + 200);
    assert_eq!(s.dropped_budget, 201 - 100);
}

#[test]
fn depth_cap_cuts_chains() {
    let mut q: TriggerQueue<u32> = TriggerQueue::new(1_000_000, 3);
    q.emit_root(0);
    explode(&mut q);
    let s = q.stats();
    // depths 0..=3 processed: 1 + 2 + 4 + 8
    assert_eq!(s.processed, 15);
    assert_eq!(s.dropped_depth, 16);
    assert_eq!(s.max_depth_seen, 3);
    assert_eq!(s.dropped_budget, 0);
    assert_eq!(s.budget_hit_ticks, 0);
}

#[test]
fn floor_drops_are_counted() {
    let mut q: TriggerQueue<u32> = TriggerQueue::new(10, 10);
    assert!(q.has_headroom());
    q.drop_below_floor();
    q.drop_below_floor();
    assert_eq!(q.stats().dropped_floor, 2);
    let fresh = TriggerStats::new();
    assert_eq!(fresh.processed, 0);
    q.configure(1, 10);
    q.emit_root(1);
    q.emit_root(2);
    q.begin_tick();
    assert_eq!(q.next(), Some(1));
    assert_eq!(q.next(), None);
    q.end_tick();
    assert_eq!(q.stats().dropped_budget, 1);
    assert_eq!(q.stats().last_tick_processed, 1);
}
