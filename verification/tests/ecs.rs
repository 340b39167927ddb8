use goetia::ecs::{Command, CommandBuffer, Entity, World, WorldOp};

#[derive(Debug, PartialEq, Clone, Copy)]
enum Comp {
    P(f32, f32),
    V(f32, f32),
    Tag,
}

const P: u64 = 1;
const V: u64 = 2;
const TAG: u64 = 3;

fn p(x: f32, y: f32) -> (u64, Comp) {
    (P, Comp::P(x, y))
}

fn v(x: f32, y: f32) -> (u64, Comp) {
    (V, Comp::V(x, y))
}

#[test]
fn spawn_query_despawn() {
    let mut w: World<Comp> = World::new();
    let a = w.spawn(vec![p(0.0, 0.0), v(1.0, 0.0)]);
    let b = w.spawn(vec![p(5.0, 5.0), v(0.0, 1.0)]);
    let c = w.spawn(vec![p(9.0, 9.0)]);
    for e in w.query(&[P, V]) {
        let (vx, vy) = match w.get(e, V) {
            Some(Comp::V(x, y)) => (*x, *y),
            _ => panic!("velocity missing"),
        };
        if let Some(Comp::P(px, py)) = w.get_mut(e, P) {
            *px += vx;
            *py += vy;
        }
    }
    assert_eq!(w.get(a, P), Some(&Comp::P(1.0, 0.0)));
    assert_eq!(w.get(b, P), Some(&Comp::P(5.0, 6.0)));
    assert_eq!(w.get(c, P), Some(&Comp::P(9.0, 9.0)));
    assert!(w.despawn(a));
    assert!(!w.is_alive(a));
    assert_eq!(w.count(&[P]), 2);
    // b's row moved by swap_remove; access must still be correct
    assert_eq!(w.get(b, V), Some(&Comp::V(0.0, 1.0)));
}

#[test]
fn insert_remove_migrates() {
    let mut w: World<Comp> = World::new();
    let e = w.spawn(vec![p(1.0, 2.0)]);
    w.insert(e, V, Comp::V(3.0, 4.0));
    assert_eq!(w.get(e, P), Some(&Comp::P(1.0, 2.0)));
    assert_eq!(w.get(e, V), Some(&Comp::V(3.0, 4.0)));
    w.insert(e, TAG, Comp::Tag);
    w.remove(e, V);
    assert_eq!(w.get(e, V), None);
    assert_eq!(w.get(e, P), Some(&Comp::P(1.0, 2.0)));
    assert!(w.has(e, TAG));
}

#[test]
fn generations_prevent_stale_access() {
    let mut w: World<Comp> = World::new();
    let a = w.spawn(vec![p(0.0, 0.0)]);
    w.despawn(a);
    let b = w.spawn(vec![p(7.0, 7.0)]);
    assert_eq!(b.index, a.index);
    assert_ne!(b.gen, a.gen);
    assert_eq!(w.get(a, P), None);
    assert_eq!(w.get(b, P), Some(&Comp::P(7.0, 7.0)));
}

#[test]
fn entity_bits_roundtrip() {
    let e = Entity { index: 7, gen: 3 };
    assert_eq!(e.to_bits(), (3u64 << 32) | 7);
    assert_eq!(Entity::from_bits(e.to_bits()), e);
    let d = Entity::dead();
    assert_eq!(Entity::from_bits(d.to_bits()), d);
}

#[test]
fn insert_overwrites_existing_component() {
    let mut w: World<Comp> = World::new();
    let e = w.spawn(vec![p(1.0, 1.0), v(0.0, 0.0)]);
    w.insert(e, P, Comp::P(2.0, 2.0));
    assert_eq!(w.get(e, P), Some(&Comp::P(2.0, 2.0)));
    // no migration happened: still one archetype
    assert_eq!(w.archetype_stats(), vec![(2, 1)]);
}

#[test]
fn dead_handle_operations_are_noops() {
    let mut w: World<Comp> = World::new();
    let e = w.spawn(vec![p(1.0, 1.0)]);
    assert!(w.despawn(e));
    assert!(!w.despawn(e));
    w.insert(e, V, Comp::V(1.0, 1.0));
    w.remove(e, P);
    assert_eq!(w.get(e, V), None);
    assert!(w.get_mut(e, P).is_none());
    assert_eq!(w.entity_count(), 0);
}

#[test]
fn migration_reuses_archetypes_and_counts() {
    let mut w: World<Comp> = World::new();
    let a = w.spawn(vec![p(0.0, 0.0)]);
    let b = w.spawn(vec![p(1.0, 1.0)]);
    w.insert(a, V, Comp::V(0.0, 0.0));
    w.insert(b, V, Comp::V(0.0, 0.0));
    // {P} and {P, V}: the second migration lands in the existing archetype
    assert_eq!(w.archetype_stats(), vec![(1, 0), (2, 2)]);
    assert_eq!(w.count(&[P, V]), 2);
    assert_eq!(w.count(&[TAG]), 0);
    assert_eq!(w.query(&[V]), vec![a, b]);
    assert_eq!(w.entity_count(), 2);
}

#[test]
fn spawn_order_of_bundle_is_irrelevant() {
    let mut w: World<Comp> = World::new();
    let a = w.spawn(vec![v(1.0, 2.0), p(3.0, 4.0)]);
    let b = w.spawn(vec![p(5.0, 6.0), v(7.0, 8.0)]);
    assert_eq!(w.archetype_stats(), vec![(2, 2)]);
    assert_eq!(w.get(a, V), Some(&Comp::V(1.0, 2.0)));
    assert_eq!(w.get(b, V), Some(&Comp::V(7.0, 8.0)));
}

#[test]
fn resources_roundtrip() {
    let mut w: World<Comp> = World::new();
    assert!(w.try_resource(9).is_none());
    w.insert_resource(9, Comp::Tag);
    assert_eq!(w.resource(9), &Comp::Tag);
    *w.resource_mut(9) = Comp::P(1.0, 1.0);
    assert_eq!(w.try_resource(9), Some(&Comp::P(1.0, 1.0)));
    w.insert_resource(9, Comp::V(2.0, 2.0));
    assert_eq!(w.remove_resource(9), Some(Comp::V(2.0, 2.0)));
    assert_eq!(w.remove_resource(9), None);
}

#[test]
fn command_buffer_applies_in_order() {
    let mut w: World<Comp> = World::new();
    let a = w.spawn(vec![p(0.0, 0.0)]);
    let mut cb: CommandBuffer<Comp> = CommandBuffer::new();
    assert!(cb.is_empty());
    cb.despawn(a);
    cb.spawn(vec![p(1.0, 1.0), v(2.0, 2.0)]);
    assert!(!cb.is_empty());
    cb.apply(&mut w);
    assert!(cb.is_empty());
    assert!(!w.is_alive(a));
    assert_eq!(w.count(&[P, V]), 1);
    let spawned = w.query(&[V])[0];
    // the freed slot was reused at the next generation
    assert_eq!(spawned.index, a.index);
    assert_eq!(spawned.gen, a.gen + 1);
    let _ = Command::<Comp>::Despawn(spawned);
}

#[test]
fn buffered_spawn_into_new_world_gets_first_slot() {
    let mut w: World<Comp> = World::new();
    let mut cb: CommandBuffer<Comp> = CommandBuffer::new();
    cb.spawn(vec![p(3.0, 4.0)]);
    cb.apply(&mut w);
    assert!(w.is_alive(Entity { index: 0, gen: 0 }));
    assert_eq!(w.get(Entity { index: 0, gen: 0 }, P), Some(&Comp::P(3.0, 4.0)));
    assert_eq!(w.entity_count(), 1);
    // applying the emptied buffer again changes nothing
    cb.apply(&mut w);
    assert_eq!(w.entity_count(), 1);
}

#[test]
fn freed_slots_are_reused_most_recent_first() {
    let mut w: World<Comp> = World::new();
    let a = w.spawn(vec![p(0.0, 0.0)]);
    let b = w.spawn(vec![p(1.0, 1.0)]);
    let _c = w.spawn(vec![p(2.0, 2.0)]);
    assert!(w.despawn(a));
    assert!(w.despawn(b));
    let d = w.spawn(vec![v(0.0, 0.0)]);
    let e = w.spawn(vec![v(1.0, 1.0)]);
    let f = w.spawn(vec![v(2.0, 2.0)]);
    assert_eq!(d, Entity { index: b.index, gen: b.gen + 1 });
    assert_eq!(e, Entity { index: a.index, gen: a.gen + 1 });
    assert_eq!(f, Entity { index: 3, gen: 0 });
    assert!(!w.is_alive(a) && !w.is_alive(b));
}

#[test]
fn entity_count_tracks_spawns_and_successful_despawns() {
    let mut w: World<Comp> = World::new();
    let a = w.spawn(vec![p(0.0, 0.0)]);
    let b = w.spawn(vec![p(1.0, 1.0)]);
    w.insert(a, TAG, Comp::Tag);
    w.remove(b, P);
    assert_eq!(w.entity_count(), 2);
    assert!(w.despawn(a));
    assert!(!w.despawn(a));
    assert_eq!(w.entity_count(), 1);
    let mut cb: CommandBuffer<Comp> = CommandBuffer::new();
    cb.spawn(vec![v(0.0, 0.0)]);
    cb.despawn(b);
    cb.despawn(b);
    cb.apply(&mut w);
    assert_eq!(w.entity_count(), 1);
}

struct TagIt(Entity);

impl WorldOp<Comp> for TagIt {
    fn run_on(&self, world: &mut World<Comp>) {
        world.insert(self.0, TAG, Comp::Tag);
    }
}

#[test]
fn recorded_operations_run_in_order() {
    let mut w: World<Comp> = World::new();
    let a = w.spawn(vec![p(0.0, 0.0)]);
    let mut cb: CommandBuffer<Comp> = CommandBuffer::new();
    cb.run(Box::new(TagIt(a)));
    cb.spawn(vec![v(1.0, 1.0)]);
    assert!(!cb.is_empty());
    cb.apply(&mut w);
    assert!(cb.is_empty());
    assert!(w.has(a, TAG));
    assert_eq!(w.entity_count(), 2);
    assert_eq!(w.count(&[TAG]), 1);
}
