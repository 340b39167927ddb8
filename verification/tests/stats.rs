use goetia::combat::{ModOp, StatKey};
use goetia::stats::StatSheet;

/// `(base + Σadd) * (1 + Σmul)`, unless an override applies; caches the
/// result the way the engine's reader does.
fn get(s: &mut StatSheet<f32>, key: StatKey) -> f32 {
    if let Some(v) = s.cached_value(key) {
        return v;
    }
    let v = match s.override_of(key) {
        Some(v) => v,
        None => {
            let add: f32 = s.modifier_values(key, ModOp::Add).iter().sum();
            let mul: f32 = s.modifier_values(key, ModOp::Mul).iter().sum();
            (s.base_of(key).unwrap_or(0.0) + add) * (1.0 + mul)
        }
    };
    s.store_cached(key, v);
    v
}

fn hp() -> StatKey {
    StatKey::of("hp")
}

fn dmg() -> StatKey {
    StatKey::of("dmg")
}

#[test]
fn layering() {
    let (hp, dmg) = (hp(), dmg());
    let mut s = StatSheet::new().with(hp, 100.0).with(dmg, 10.0);
    assert_eq!(get(&mut s, hp), 100.0);
    let a = s.add_modifier(hp, ModOp::Add, 50.0);
    let _b = s.add_modifier(hp, ModOp::Mul, 0.2);
    let close = |a: f32, b: f32| (a - b).abs() < 1e-3;
    assert!(close(get(&mut s, hp), 180.0)); // (100+50)*1.2
    let o = s.add_modifier(hp, ModOp::Override, 1.0);
    assert_eq!(get(&mut s, hp), 1.0);
    s.remove_modifier(o);
    assert!(close(get(&mut s, hp), 180.0));
    s.remove_modifier(a);
    assert!(close(get(&mut s, hp), 120.0));
    assert_eq!(get(&mut s, dmg), 10.0); // untouched key unaffected
}

#[test]
fn cache_invalidation_is_per_key() {
    let (hp, dmg) = (hp(), dmg());
    let mut s = StatSheet::new().with(hp, 10.0).with(dmg, 5.0);
    let _ = get(&mut s, hp);
    let _ = get(&mut s, dmg);
    s.add_modifier(dmg, ModOp::Add, 5.0);
    assert_eq!(s.cached_value(hp), Some(10.0));
    assert_eq!(s.cached_value(dmg), None);
    assert_eq!(get(&mut s, hp), 10.0);
    assert_eq!(get(&mut s, dmg), 10.0);
}

#[test]
fn override_priority_then_latest_wins() {
    let hp = hp();
    let mut s: StatSheet<i32> = StatSheet::new();
    assert_eq!(s.override_of(hp), None);
    s.add_modifier_prio(hp, ModOp::Override, 1, 5);
    let h2 = s.add_modifier_prio(hp, ModOp::Override, 2, 5);
    s.add_modifier_prio(hp, ModOp::Override, 3, 1);
    assert_eq!(s.override_of(hp), Some(2));
    s.remove_modifier(h2);
    assert_eq!(s.override_of(hp), Some(1));
}

#[test]
fn handles_count_up_and_removal_reports_presence() {
    let hp = hp();
    let mut s: StatSheet<i32> = StatSheet::new();
    let a = s.add_modifier(hp, ModOp::Add, 1);
    let b = s.add_modifier(hp, ModOp::Add, 2);
    assert_eq!(a.0, 0);
    assert_eq!(b.0, 1);
    assert_eq!(s.handles_issued(), 2);
    assert_eq!(s.modifier_values(hp, ModOp::Add), vec![1, 2]);
    assert!(s.remove_modifier(a));
    assert!(!s.remove_modifier(a));
    assert_eq!(s.modifier_values(hp, ModOp::Add), vec![2]);
    assert_eq!(s.base_of(hp), None);
    s.set_base(hp, 7);
    assert_eq!(s.base_of(hp), Some(7));
}
