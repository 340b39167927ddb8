use goetia::combat::{StatKey, StatusId, TriggerKind};
use goetia::vocab::{
    demons, dmg_key, dmg_types, equip_slot_kind, slot_name, status_by_name, trigger_by_name, Demon, DmgType,
    Rarity, Slot, EQUIP_SLOTS, MASK_ENEMY, MASK_PLAYER,
};

#[test]
fn damage_types_in_index_order() {
    let ts = dmg_types();
    for (i, t) in ts.iter().enumerate() {
        assert_eq!(t.index(), i);
    }
    assert_eq!(DmgType::Hellfire.name(), "HELLFIRE");
    assert_eq!(DmgType::Void.name(), "VOID");
}

#[test]
fn named_keys() {
    assert_eq!(status_by_name("ignite"), StatusId::of("ignite"));
    assert_eq!(trigger_by_name("on_kill"), TriggerKind::of("on_kill"));
    assert_eq!(dmg_key(DmgType::Hex), StatKey::of("dmg_hex"));
    assert_ne!(dmg_key(DmgType::Hex), dmg_key(DmgType::Void));
}

#[test]
fn demons_and_slots() {
    let ds = demons();
    assert_eq!(ds[0], Demon::Vassago);
    assert_eq!(ds[2].index(), 2);
    assert_eq!(Demon::Andras.name(), "ANDRAS");
    assert_eq!(Demon::Buer.title(), "THE HEALER-WHEEL");
    assert_eq!(EQUIP_SLOTS, 5);
    let kinds: Vec<Slot> = (0..EQUIP_SLOTS).map(equip_slot_kind).collect();
    assert_eq!(kinds, vec![Slot::Weapon, Slot::Armor, Slot::Relic, Slot::Ring, Slot::Ring]);
    assert_eq!(slot_name(Slot::Relic), "RELIC");
    assert_eq!(Rarity::Goetic.name(), "GOETIC");
    assert_eq!(MASK_ENEMY & MASK_PLAYER, 0);
}
