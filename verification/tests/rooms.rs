use goetia::pcg::Pcg32;
use goetia::rooms::{
    assemble, door_cells, tags_allowed, template_fits_target, Door, PlacedRoom, RealmGrammar, RealmLayout, RoomTemplate,
    Side,
};
use std::collections::HashSet;

/// The weighted choice of `Pcg32::weighted_index`, given the `u32` it draws.
fn weighted_pick(draw: u32, weights: Vec<u32>) -> usize {
    let ws: Vec<f32> = weights.iter().map(|b| f32::from_bits(*b)).collect();
    let total: f32 = ws.iter().sum();
    assert!(total > 0.0, "candidate weights sum to zero");
    let mut roll = (draw >> 8) as f32 * (1.0 / (1 << 24) as f32) * total;
    for (i, w) in ws.iter().enumerate() {
        roll -= w;
        if roll < 0.0 {
            return i;
        }
    }
    ws.len() - 1
}

fn run(ts: &[RoomTemplate], g: &RealmGrammar, rng: &mut Pcg32) -> Option<RealmLayout> {
    assemble(ts, g, rng, weighted_pick)
}

fn door(side: Side, offset: u32) -> Door {
    Door { side, offset }
}

fn t(name: &str, w: u32, h: u32, doors: Vec<Door>) -> RoomTemplate {
    tw(name, w, h, doors, 1.0)
}

fn tw(name: &str, w: u32, h: u32, doors: Vec<Door>, weight: f32) -> RoomTemplate {
    RoomTemplate { name: name.into(), width: w, height: h, doors, tags: vec![], weight_bits: weight.to_bits() }
}

fn templates() -> Vec<RoomTemplate> {
    vec![
        t(
            "hub",
            3,
            3,
            vec![door(Side::North, 1), door(Side::South, 1), door(Side::East, 1), door(Side::West, 1)],
        ),
        t("hall", 2, 4, vec![door(Side::North, 0), door(Side::South, 1)]),
        t("cell", 2, 2, vec![door(Side::West, 0)]),
    ]
}

fn grammar(n: u32) -> RealmGrammar {
    RealmGrammar { start: "hub".into(), target_rooms: n, allow: vec![] }
}

#[test]
fn same_seed_same_layout() {
    let ts = templates();
    let g = grammar(15);
    let a = run(&ts, &g, &mut Pcg32::new(99, 1)).unwrap();
    let b = run(&ts, &g, &mut Pcg32::new(99, 1)).unwrap();
    assert_eq!(a.hash(), b.hash());
    assert!(a.rooms.len() >= 5, "grew to {} rooms", a.rooms.len());
    let c = run(&ts, &g, &mut Pcg32::new(100, 1)).unwrap();
    assert_ne!(a.hash(), c.hash());
}

#[test]
fn rooms_never_overlap() {
    let ts = templates();
    let g = grammar(20);
    let l = run(&ts, &g, &mut Pcg32::new(7, 1)).unwrap();
    let mut seen = HashSet::new();
    for r in &l.rooms {
        let t = &ts[r.template];
        for x in r.x..r.x + t.width as i32 {
            for y in r.y..r.y + t.height as i32 {
                assert!(seen.insert((x, y)), "overlap at {x},{y}");
            }
        }
    }
    // Connectivity: every room after the first appears in a connection.
    for i in 1..l.rooms.len() {
        assert!(l.connections.iter().any(|(a, b, _)| *a == i || *b == i));
    }
}

#[test]
fn realm_seed_stable() {
    let templates = vec![
        tw(
            "hub",
            3,
            3,
            vec![door(Side::North, 1), door(Side::South, 1), door(Side::East, 1), door(Side::West, 1)],
            1.0,
        ),
        tw("hall", 2, 4, vec![door(Side::North, 0), door(Side::South, 1)], 1.2),
        tw("cell", 2, 2, vec![door(Side::West, 0)], 1.0),
        tw("wide", 4, 2, vec![door(Side::East, 0), door(Side::West, 1)], 1.0),
        tw("square", 3, 3, vec![door(Side::North, 1), door(Side::West, 1)], 0.9),
        tw("nook", 2, 2, vec![door(Side::South, 0)], 0.8),
    ];
    let g = RealmGrammar { start: "hub".into(), target_rooms: 15, allow: vec![] };
    let a = run(&templates, &g, &mut Pcg32::new(42, 1)).unwrap();
    let b = run(&templates, &g, &mut Pcg32::new(42, 1)).unwrap();
    assert_eq!(a.hash(), b.hash());
    assert!(a.rooms.len() >= 10, "expected ~15 rooms, got {}", a.rooms.len());
}

#[test]
fn missing_start_template_gives_none() {
    let ts = templates();
    let g = RealmGrammar { start: "crypt".into(), target_rooms: 5, allow: vec![] };
    assert!(run(&ts, &g, &mut Pcg32::new(1, 1)).is_none());
}

#[test]
fn start_room_sits_at_origin_and_tree_links_back() {
    let ts = templates();
    let l = run(&ts, &grammar(12), &mut Pcg32::new(3, 1)).unwrap();
    assert_eq!(l.rooms[0], PlacedRoom { template: 0, x: 0, y: 0 });
    assert!(l.rooms.len() <= 12);
    assert_eq!(l.connections.len() + 1, l.rooms.len());
    for (k, (host, room, _)) in l.connections.iter().enumerate() {
        assert_eq!(*room, k + 1);
        assert!(*host < *room);
    }
}

#[test]
fn target_zero_keeps_only_the_start_room() {
    let ts = templates();
    let l = run(&ts, &grammar(0), &mut Pcg32::new(3, 1)).unwrap();
    assert_eq!(l.rooms.len(), 1);
    assert!(l.connections.is_empty());
}

#[test]
fn door_cells_per_side() {
    let t = t("box", 4, 3, vec![]);
    assert_eq!(door_cells(&t, 10, 20, door(Side::North, 1)), ((11, 22), (11, 23)));
    assert_eq!(door_cells(&t, 10, 20, door(Side::South, 2)), ((12, 20), (12, 19)));
    assert_eq!(door_cells(&t, 10, 20, door(Side::East, 0)), ((13, 20), (14, 20)));
    assert_eq!(door_cells(&t, 10, 20, door(Side::West, 2)), ((10, 22), (9, 22)));
}

#[test]
fn tag_grammar() {
    let mut a = t("a", 1, 1, vec![]);
    let mut b = t("b", 1, 1, vec![]);
    let open = RealmGrammar { start: "a".into(), target_rooms: 1, allow: vec![] };
    assert!(tags_allowed(&open, &a, &b));
    let g = RealmGrammar { start: "a".into(), target_rooms: 1, allow: vec![("crypt".into(), "hall".into())] };
    // untagged rooms connect to anything
    assert!(tags_allowed(&g, &a, &b));
    a.tags = vec!["hall".into()];
    b.tags = vec!["crypt".into()];
    assert!(tags_allowed(&g, &a, &b));
    assert!(tags_allowed(&g, &b, &a));
    b.tags = vec!["garden".into()];
    assert!(!tags_allowed(&g, &a, &b));
}

#[test]
fn opposite_sides() {
    for s in [Side::North, Side::South, Side::East, Side::West] {
        assert_eq!(s.opposite().opposite(), s);
        assert_ne!(s.opposite(), s);
    }
    assert_eq!(Side::North.opposite(), Side::South);
    assert_eq!(Side::East.opposite(), Side::West);
}

#[test]
fn layout_hash_depends_on_rooms_and_connections() {
    let mut l = RealmLayout::new();
    let empty = l.hash();
    assert_eq!(empty, 0xcbf2_9ce4_8422_2325);
    l.rooms.push(PlacedRoom { template: 1, x: -2, y: 5 });
    let one = l.hash();
    assert_ne!(one, empty);
    l.connections.push((0, 0, (1, 1)));
    assert_ne!(l.hash(), one);
}

#[test]
fn two_room_realm_is_exact() {
    let ts = vec![t("hub", 3, 3, vec![door(Side::North, 1)]), t("cap", 2, 2, vec![door(Side::South, 1)])];
    let g = RealmGrammar { start: "hub".into(), target_rooms: 2, allow: vec![] };
    let l = run(&ts, &g, &mut Pcg32::new(1, 1)).unwrap();
    let rooms: Vec<(usize, i32, i32)> = l.rooms.iter().map(|r| (r.template, r.x, r.y)).collect();
    assert_eq!(rooms, vec![(0, 0, 0), (1, 0, 3)]);
    assert_eq!(l.connections, vec![(0, 1, (1, 3))]);
}

#[test]
fn template_fit_follows_the_target() {
    // target 1: extent 0x7fff_ffff / 8 - 1, doors 0xffff_ffff / 2
    assert!(template_fits_target(&t("a", 268_435_454, 1, vec![]), 1));
    assert!(!template_fits_target(&t("a", 268_435_455, 1, vec![]), 1));
    assert!(template_fits_target(&t("a", 1, 268_435_454, vec![door(Side::East, 268_435_454)]), 0));
    assert!(!template_fits_target(&t("a", 1, 1, vec![door(Side::East, 268_435_455)]), 1));
    // target 1000: extent 0x7fff_ffff / 4004 - 1
    assert!(template_fits_target(&t("a", 536_333, 536_333, vec![]), 1000));
    assert!(!template_fits_target(&t("a", 536_334, 1, vec![]), 1000));
    // the largest target whose attempt budget fits u32: extent 6
    assert!(template_fits_target(&t("a", 6, 6, vec![door(Side::North, 6)]), u32::MAX / 64));
    assert!(!template_fits_target(&t("a", 7, 6, vec![]), u32::MAX / 64));
}

#[test]
fn large_targets_are_accepted() {
    let ts = vec![
        t("hub", 3, 3, vec![door(Side::North, 1)]),
        t("cap", 3, 3, vec![door(Side::South, 1)]),
    ];
    let g = RealmGrammar { start: "hub".into(), target_rooms: 100_000, allow: vec![] };
    assert!(ts.iter().all(|x| template_fits_target(x, g.target_rooms)));
    let l = run(&ts, &g, &mut Pcg32::new(5, 3)).unwrap();
    // the cap closes the only door: two rooms, one passage
    assert_eq!(l.rooms.len(), 2);
    assert_eq!(l.connections.len(), 1);
    assert_eq!(l.rooms[1], PlacedRoom { template: 1, x: 0, y: 3 });
}
