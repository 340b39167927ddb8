use goetia::pcg::{Pcg32, PcgStreams};

#[test]
fn deterministic_and_independent() {
    let mut a = PcgStreams::new(42);
    let mut b = PcgStreams::new(42);
    // Draw from loot in `a` before layout; layout must be unaffected.
    let _ = a.get("loot").next_u32();
    let la: Vec<u32> = (0..8).map(|_| a.get("layout").next_u32()).collect();
    let lb: Vec<u32> = (0..8).map(|_| b.get("layout").next_u32()).collect();
    assert_eq!(la, lb);
    let mut c = PcgStreams::new(43);
    let lc: Vec<u32> = (0..8).map(|_| c.get("layout").next_u32()).collect();
    assert_ne!(la, lc);
}

fn next_f32(r: &mut Pcg32) -> f32 {
    (r.next_u32() >> 8) as f32 * (1.0 / (1 << 24) as f32)
}

#[test]
fn range_bounds() {
    let mut r = Pcg32::new(7, 1);
    for _ in 0..10_000 {
        let v = r.range_u32(13);
        assert!(v < 13);
        let f = next_f32(&mut r);
        assert!((0.0..1.0).contains(&f));
    }
}

#[test]
fn known_first_outputs() {
    // PCG32 reference: seed 42, stream 54 (O'Neill's pcg32-demo).
    let mut r = Pcg32::new(42, 54);
    let got: Vec<u32> = (0..6).map(|_| r.next_u32()).collect();
    assert_eq!(got, vec![0xa15c02b7, 0x7b47f409, 0xba1d3330, 0x83d2f293, 0xbfa4784b, 0xcbed606e]);
}

#[test]
fn next_u64_is_two_draws_high_first() {
    let mut a = Pcg32::new(9, 3);
    let mut b = a;
    let hi = b.next_u32() as u64;
    let lo = b.next_u32() as u64;
    assert_eq!(a.next_u64(), (hi << 32) | lo);
    assert_eq!(a, b);
}

#[test]
fn range_i32_bounds() {
    let mut r = Pcg32::new(1, 2);
    for _ in 0..1000 {
        let v = r.range_i32(-5, 5);
        assert!((-5..5).contains(&v));
    }
}

#[test]
fn shuffle_is_a_deterministic_permutation() {
    let mut v1: Vec<u32> = (0..20).collect();
    let mut v2 = v1.clone();
    Pcg32::new(3, 3).shuffle(&mut v1);
    Pcg32::new(3, 3).shuffle(&mut v2);
    assert_eq!(v1, v2);
    let mut sorted = v1.clone();
    sorted.sort();
    assert_eq!(sorted, (0..20).collect::<Vec<u32>>());
    assert_ne!(v1, (0..20).collect::<Vec<u32>>());
}

#[test]
fn fork_draws_once_from_parent() {
    let mut a = PcgStreams::new(5);
    let mut b = PcgStreams::new(5);
    let _child = a.fork("rooms");
    let _ = b.get("rooms").next_u64();
    assert_eq!(a.get("rooms").next_u32(), b.get("rooms").next_u32());
    assert_eq!(a.master_seed(), 5);
}

#[test]
fn streams_do_not_depend_on_creation_order() {
    let mut a = PcgStreams::new(77);
    let mut b = PcgStreams::new(77);
    let _ = a.get("x");
    let _ = a.get("y");
    let _ = b.get("y");
    let _ = b.get("x");
    assert_eq!(a.get("x").next_u32(), b.get("x").next_u32());
    assert_eq!(a.get("y").next_u32(), b.get("y").next_u32());
}
