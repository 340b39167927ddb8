use goetia::schedule::{Schedule, SystemDef};

const A: u64 = 1;
const B: u64 = 2;

fn noop() {}

#[test]
fn parallel_batches_disjoint() {
    let mut sched: Schedule<fn()> = Schedule::new();
    sched.add(SystemDef::new("bump_a", noop as fn()).writes(A));
    sched.add(SystemDef::new("bump_b", noop as fn()).writes(B));
    sched.add(SystemDef::new("sum", noop as fn()).reads(A).reads(B));
    assert_eq!(sched.batch_count(), 2); // {bump_a, bump_b} then {sum}
    assert_eq!(sched.batches(), &[vec![0, 1], vec![2]]);
}

#[test]
fn exclusive_system_runs_alone() {
    let mut sched: Schedule<fn()> = Schedule::new();
    sched.add(SystemDef::new("r1", noop as fn()).reads(A));
    sched.add(SystemDef::exclusive("flush", noop as fn()));
    sched.add(SystemDef::new("r2", noop as fn()).reads(A));
    assert_eq!(sched.batch_count(), 3);
    assert_eq!(sched.batches(), &[vec![0], vec![1], vec![2]]);
}

#[test]
fn readers_share_a_batch() {
    let mut sched: Schedule<fn()> = Schedule::new();
    sched.add(SystemDef::new("r1", noop as fn()).reads(A));
    sched.add(SystemDef::new("r2", noop as fn()).reads(A).reads(B));
    sched.add(SystemDef::new("w", noop as fn()).writes(B));
    assert_eq!(sched.batches().len(), 0); // nothing built yet
    assert_eq!(sched.batch_count(), 2);
    assert_eq!(sched.batches(), &[vec![0, 1], vec![2]]);
    assert_eq!(sched.timings().len(), 3);
    assert_eq!(sched.timings()[2], ("w", 0));
    sched.set_timing(2, 17);
    assert_eq!(sched.timings()[2], ("w", 17));
    assert_eq!(sched.system_list()[1].name, "r2");
}
