use goetia::combat::{StatKey, StatusBag, StatusDef, StatusEvent, StatusId, StatusRegistry, TriggerKind};
use goetia::ecs::Entity;
use goetia::hash::fnv1a64;

fn def(name: &str, stacks: u32, dur: u32, interval: u32) -> StatusDef {
    StatusDef { name: name.into(), max_stacks: stacks, duration_ticks: dur, tick_interval: interval, refresh_on_apply: true }
}

fn fmax(a: f32, b: f32) -> f32 {
    a.max(b)
}

#[test]
fn lifecycle() {
    let e = Entity { index: 1, gen: 0 };
    let mut reg = StatusRegistry::default();
    let ignite = def("ignite", 5, 3, 1);
    let id = reg.register(ignite.clone());
    let mut bag: StatusBag<f32> = StatusBag::new();
    let mut evs = Vec::new();

    bag.apply(e, &ignite, 2, 7.0, fmax, &mut evs);
    assert_eq!(bag.stacks(id), 2);
    bag.apply(e, &ignite, 9, 3.0, fmax, &mut evs);
    assert_eq!(bag.stacks(id), 5); // capped

    evs.clear();
    bag.tick(e, &reg, &mut evs); // tick 1: Ticked
    bag.tick(e, &reg, &mut evs); // tick 2: Ticked
    bag.tick(e, &reg, &mut evs); // tick 3: Ticked + Expired
    let ticked = evs.iter().filter(|e| matches!(e, StatusEvent::Ticked { .. })).count();
    let expired = evs.iter().filter(|e| matches!(e, StatusEvent::Expired { .. })).count();
    assert_eq!(ticked, 3);
    assert_eq!(expired, 1);
    assert!(!bag.has(id));
}

#[test]
fn detonate_consumes() {
    let e = Entity { index: 1, gen: 0 };
    let d = def("brand", 3, 100, 0);
    let mut bag: StatusBag<f32> = StatusBag::new();
    let mut evs = Vec::new();
    bag.apply(e, &d, 3, 12.0, fmax, &mut evs);
    let got = bag.detonate(e, d.id(), &mut evs);
    assert_eq!(got, Some((3, 12.0)));
    assert!(!bag.has(d.id()));
    assert!(matches!(evs.last(), Some(StatusEvent::Detonated { stacks: 3, .. })));
}

#[test]
fn keys_are_fnv_of_names() {
    assert_eq!(StatKey::of("hp").0, fnv1a64(b"hp"));
    assert_eq!(StatusId::of("ignite").0, fnv1a64(b"ignite"));
    assert_eq!(TriggerKind::of("on_hit").0, fnv1a64(b"on_hit"));
    assert_eq!(def("ignite", 1, 1, 1).id(), StatusId::of("ignite"));
    assert_ne!(StatusId::of("ignite"), StatusId::of("chill"));
}

#[test]
fn registry_register_replaces_same_name() {
    let mut reg = StatusRegistry::new();
    assert!(reg.is_empty());
    let a = reg.register(def("chill", 1, 10, 0));
    let b = reg.register(def("chill", 4, 20, 0));
    assert_eq!(a, b);
    assert_eq!(reg.len(), 1);
    assert_eq!(reg.get(a).unwrap().max_stacks, 4);
    assert!(reg.get(StatusId::of("ignite")).is_none());
}

#[test]
fn unstackable_status_caps_at_one_and_refreshes() {
    let e = Entity { index: 2, gen: 1 };
    let mut reg = StatusRegistry::new();
    let d = def("mark", 0, 4, 0);
    let id = reg.register(d.clone());
    let mut bag: StatusBag<f32> = StatusBag::new();
    let mut evs = Vec::new();
    bag.apply(e, &d, 3, 1.0, fmax, &mut evs);
    assert_eq!(bag.stacks(id), 1);
    bag.tick(e, &reg, &mut evs);
    bag.tick(e, &reg, &mut evs);
    assert_eq!(bag.get(id).unwrap().remaining, 2);
    bag.apply(e, &d, 1, 5.0, fmax, &mut evs);
    assert_eq!(bag.get(id).unwrap().remaining, 4);
    assert_eq!(bag.get(id).unwrap().magnitude, 5.0);
    assert_eq!(bag.stacks(id), 1);
}

#[test]
fn permanent_status_never_expires_and_remove_is_silent() {
    let e = Entity { index: 0, gen: 0 };
    let mut reg = StatusRegistry::new();
    let d = def("aura", 2, 0, 2);
    let id = reg.register(d.clone());
    let mut bag: StatusBag<u32> = StatusBag::new();
    let mut evs = Vec::new();
    bag.apply(e, &d, 1, 9, |a: u32, b: u32| a.max(b), &mut evs);
    evs.clear();
    for _ in 0..10 {
        bag.tick(e, &reg, &mut evs);
    }
    assert!(bag.has(id));
    let ticked = evs.iter().filter(|e| matches!(e, StatusEvent::Ticked { .. })).count();
    assert_eq!(ticked, 5);
    evs.clear();
    assert!(bag.remove(id));
    assert!(!bag.remove(id));
    assert!(evs.is_empty());
    assert_eq!(bag.detonate(e, id, &mut evs), None);
    assert!(evs.is_empty());
}

#[test]
fn fresh_apply_reports_the_capped_count() {
    let e = Entity { index: 1, gen: 0 };
    let d = def("brand", 3, 100, 0);
    let mut bag: StatusBag<f32> = StatusBag::new();
    let mut evs = Vec::new();
    bag.apply(e, &d, 5, 12.0, fmax, &mut evs);
    assert_eq!(bag.stacks(d.id()), 3);
    assert_eq!(evs.len(), 1);
    assert!(matches!(evs[0], StatusEvent::Applied { entity, id, stacks: 3 } if entity == e && id == d.id()));
}
