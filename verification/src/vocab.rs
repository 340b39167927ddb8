//! The game's global vocabulary: damage types, named statuses and triggers,
//! stat keys, realms' demons, item slots and rarities.

use vstd::prelude::*;
use crate::combat::{StatKey, StatusId, TriggerKind};
use crate::hash::{key64, spec_key64};

verus! {

#[derive(Clone, Copy, PartialEq, Eq, Hash, Debug, Structural)]
pub enum DmgType {
    Physical,
    Hellfire,
    Hex,
    Void,
}

pub open spec fn dmg_index(t: DmgType) -> usize {
    match t {
        DmgType::Physical => 0,
        DmgType::Hellfire => 1,
        DmgType::Hex => 2,
        DmgType::Void => 3,
    }
}

pub open spec fn dmg_name(t: DmgType) -> &'static str {
    match t {
        DmgType::Physical => "PHYSICAL",
        DmgType::Hellfire => "HELLFIRE",
        DmgType::Hex => "HEX",
        DmgType::Void => "VOID",
    }
}

/// The damage types in index order.
pub fn dmg_types() -> (r: [DmgType; 4])
    ensures
        forall|i: int| 0 <= i < 4 ==> dmg_index(#[trigger] r@[i]) == i,
{
    [DmgType::Physical, DmgType::Hellfire, DmgType::Hex, DmgType::Void]
}

impl DmgType {
    pub fn index(self) -> (r: usize)
        ensures
            r == dmg_index(self),
    {
        match self {
            DmgType::Physical => 0,
            DmgType::Hellfire => 1,
            DmgType::Hex => 2,
            DmgType::Void => 3,
        }
    }

    pub fn name(self) -> (r: &'static str)
        ensures
            r == dmg_name(self),
    {
        match self {
            DmgType::Physical => "PHYSICAL",
            DmgType::Hellfire => "HELLFIRE",
            DmgType::Hex => "HEX",
            DmgType::Void => "VOID",
        }
    }
}

/// Law: `index` numbers the damage types one-to-one.
pub proof fn law_dmg_index_injective(a: DmgType, b: DmgType)
    ensures
        dmg_index(a) == dmg_index(b) ==> a == b,
{
}

pub fn status_by_name(name: &str) -> (r: StatusId)
    ensures
        r.0 == spec_key64(name),
{
    StatusId(key64(name))
}

pub fn trigger_by_name(name: &str) -> (r: TriggerKind)
    ensures
        r.0 == spec_key64(name),
{
    TriggerKind(key64(name))
}

pub open spec fn dmg_key_name(t: DmgType) -> &'static str {
    match t {
        DmgType::Physical => "dmg_phys",
        DmgType::Hellfire => "dmg_hellfire",
        DmgType::Hex => "dmg_hex",
        DmgType::Void => "dmg_void",
    }
}

/// Stat key of the damage bonus for type `t`.
pub fn dmg_key(t: DmgType) -> (r: StatKey)
    ensures
        r.0 == spec_key64(dmg_key_name(t)),
{
    match t {
        DmgType::Physical => StatKey::of("dmg_phys"),
        DmgType::Hellfire => StatKey::of("dmg_hellfire"),
        DmgType::Hex => StatKey::of("dmg_hex"),
        DmgType::Void => StatKey::of("dmg_void"),
    }
}

#[derive(Clone, Copy, PartialEq, Eq, Debug, Structural)]
pub enum Demon {
    Vassago,
    Andras,
    Buer,
}

pub open spec fn demon_index(d: Demon) -> usize {
    match d {
        Demon::Vassago => 0,
        Demon::Andras => 1,
        Demon::Buer => 2,
    }
}

pub open spec fn demon_name(d: Demon) -> &'static str {
    match d {
        Demon::Vassago => "VASSAGO",
        Demon::Andras => "ANDRAS",
        Demon::Buer => "BUER",
    }
}

pub open spec fn demon_title(d: Demon) -> &'static str {
    match d {
        Demon::Vassago => "FINDER OF HIDDEN THINGS",
        Demon::Andras => "SOWER OF DISCORD",
        Demon::Buer => "THE HEALER-WHEEL",
    }
}

impl Demon {
    pub fn name(self) -> (r: &'static str)
        ensures
            r == demon_name(self),
    {
        match self {
            Demon::Vassago => "VASSAGO",
            Demon::Andras => "ANDRAS",
            Demon::Buer => "BUER",
        }
    }

    pub fn title(self) -> (r: &'static str)
        ensures
            r == demon_title(self),
    {
        match self {
            Demon::Vassago => "FINDER OF HIDDEN THINGS",
            Demon::Andras => "SOWER OF DISCORD",
            Demon::Buer => "THE HEALER-WHEEL",
        }
    }

    pub fn index(self) -> (r: usize)
        ensures
            r == demon_index(self),
    {
        match self {
            Demon::Vassago => 0,
            Demon::Andras => 1,
            Demon::Buer => 2,
        }
    }
}

/// The demons in index order.
pub fn demons() -> (r: [Demon; 3])
    ensures
        forall|i: int| 0 <= i < 3 ==> demon_index(#[trigger] r@[i]) == i,
{
    [Demon::Vassago, Demon::Andras, Demon::Buer]
}

#[derive(Clone, Copy, PartialEq, Eq, Debug, Structural)]
pub enum Slot {
    Weapon,
    Armor,
    Relic,
    Ring,
}

/// Weapon, armor, relic, ring, ring.
pub const EQUIP_SLOTS: usize = 5;

pub open spec fn spec_equip_slot_kind(i: usize) -> Slot {
    if i == 0 {
        Slot::Weapon
    } else if i == 1 {
        Slot::Armor
    } else if i == 2 {
        Slot::Relic
    } else {
        Slot::Ring
    }
}

/// Kind of equipment slot `i`: weapon, armor, relic, then rings.
pub fn equip_slot_kind(i: usize) -> (r: Slot)
    ensures
        r == spec_equip_slot_kind(i),
{
    match i {
        0 => Slot::Weapon,
        1 => Slot::Armor,
        2 => Slot::Relic,
        _ => Slot::Ring,
    }
}

pub open spec fn spec_slot_name(s: Slot) -> &'static str {
    match s {
        Slot::Weapon => "WEAPON",
        Slot::Armor => "ARMOR",
        Slot::Relic => "RELIC",
        Slot::Ring => "RING",
    }
}

pub fn slot_name(s: Slot) -> (r: &'static str)
    ensures
        r == spec_slot_name(s),
{
    match s {
        Slot::Weapon => "WEAPON",
        Slot::Armor => "ARMOR",
        Slot::Relic => "RELIC",
        Slot::Ring => "RING",
    }
}

#[derive(Clone, Copy, PartialEq, Eq, PartialOrd, Ord, Debug, Structural)]
pub enum Rarity {
    Common,
    Magic,
    Rare,
    Goetic,
}

pub open spec fn rarity_name(r: Rarity) -> &'static str {
    match r {
        Rarity::Common => "COMMON",
        Rarity::Magic => "MAGIC",
        Rarity::Rare => "RARE",
        Rarity::Goetic => "GOETIC",
    }
}

impl Rarity {
    pub fn name(self) -> (r: &'static str)
        ensures
            r == rarity_name(self),
    {
        match self {
            Rarity::Common => "COMMON",
            Rarity::Magic => "MAGIC",
            Rarity::Rare => "RARE",
            Rarity::Goetic => "GOETIC",
        }
    }
}

pub const MASK_ENEMY: u32 = 0b01;
pub const MASK_PLAYER: u32 = 0b10;

} // verus!
