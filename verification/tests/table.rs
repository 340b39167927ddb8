use goetia::pcg::Pcg32;
use goetia::table::{TableEntry, WeightedTable};

/// One roll: effective weights `w * (1 + ramp * misses)`, a weighted draw,
/// then the table's pity bookkeeping.
fn roll<'a, T>(t: &'a mut WeightedTable<T>, rng: &mut Pcg32) -> Option<&'a T> {
    if t.is_empty() {
        return None;
    }
    let ws: Vec<f32> = t
        .entries()
        .iter()
        .map(|e| f32::from_bits(e.weight_bits) * (1.0 + f32::from_bits(e.pity_ramp_bits) * e.misses as f32))
        .collect();
    let total: f32 = ws.iter().sum();
    if total <= 0.0 {
        return None;
    }
    let mut r = (rng.next_u32() >> 8) as f32 * (1.0 / (1 << 24) as f32) * total;
    let mut idx = ws.len() - 1;
    for (i, w) in ws.iter().enumerate() {
        r -= w;
        if r < 0.0 {
            idx = i;
            break;
        }
    }
    Some(t.record_pick(idx))
}

#[test]
fn pity_forces_rare_drop() {
    let mut t = WeightedTable::new();
    t.push("common", 99.0f32.to_bits(), 0.0f32.to_bits());
    t.push("rare", 1.0f32.to_bits(), 5.0f32.to_bits());
    let mut rng = Pcg32::new(1, 1);
    let mut first_rare = None;
    for i in 0..500 {
        if *roll(&mut t, &mut rng).unwrap() == "rare" {
            first_rare = Some(i);
            break;
        }
    }
    let hit = first_rare.expect("pity should force the rare");
    assert!(hit < 200, "rare took {hit} rolls");
    assert_eq!(t.entries()[1].misses, 0);
}

#[test]
fn deterministic() {
    let mk = || {
        let mut t = WeightedTable::new();
        t.push(1, 1.0f32.to_bits(), 0.5f32.to_bits());
        t.push(2, 2.0f32.to_bits(), 0.0f32.to_bits());
        t.push(3, 3.0f32.to_bits(), 1.0f32.to_bits());
        t
    };
    let mut a = mk();
    let mut b = mk();
    let mut ra = Pcg32::new(5, 2);
    let mut rb = Pcg32::new(5, 2);
    let sa: Vec<i32> = (0..50).map(|_| *roll(&mut a, &mut ra).unwrap()).collect();
    let sb: Vec<i32> = (0..50).map(|_| *roll(&mut b, &mut rb).unwrap()).collect();
    assert_eq!(sa, sb);
}

#[test]
fn record_pick_resets_winner_and_ramps_others() {
    let mut t = WeightedTable::from_entries(vec![
        TableEntry { item: 'a', weight_bits: 0, pity_ramp_bits: 0, misses: 3 },
        TableEntry { item: 'b', weight_bits: 0, pity_ramp_bits: 0, misses: 0 },
        TableEntry { item: 'c', weight_bits: 0, pity_ramp_bits: 0, misses: 7 },
    ]);
    assert_eq!(t.len(), 3);
    assert_eq!(*t.record_pick(2), 'c');
    let m: Vec<u32> = t.entries().iter().map(|e| e.misses).collect();
    assert_eq!(m, vec![4, 1, 0]);
    let mut empty: WeightedTable<u8> = WeightedTable::new();
    assert!(empty.is_empty());
    assert!(roll(&mut empty, &mut Pcg32::new(1, 1)).is_none());
}
