//! Layered stat sheets: base value, keyed modifiers (add / multiply /
//! override) under monotonically allocated handles, and a per-key cache of
//! computed values with per-key invalidation.
//!
//! Values are of a caller-chosen type `V`; combining them into a final value
//! is the caller's arithmetic. This module keeps the bookkeeping: which
//! modifiers apply to a key, in handle order; which override wins; and which
//! cached values are still valid.

use vstd::prelude::*;
use crate::combat::{ModOp, ModifierHandle, StatKey};
use crate::ecs::bundle_map;
use std::collections::HashMap;

verus! {

#[derive(Clone, Copy, Debug)]
pub struct Modifier<V> {
    pub key: StatKey,
    pub op: ModOp,
    pub value: V,
    pub priority: i32,
}

/// Handles strictly increase along the modifier list.
pub open spec fn handles_ascending<V>(m: Seq<(u64, Modifier<V>)>) -> bool {
    forall|i: int, j: int| 0 <= i < j < m.len() ==> m[i].0 < m[j].0
}

/// Values of the modifiers on `key` with operation `op`, in handle order.
pub open spec fn values_of<V>(m: Seq<(u64, Modifier<V>)>, key: u64, op: ModOp) -> Seq<V>
    decreases m.len(),
{
    if m.len() == 0 {
        Seq::empty()
    } else {
        let last = m.last().1;
        let rest = values_of(m.drop_last(), key, op);
        if last.key.0 == key && last.op == op {
            rest.push(last.value)
        } else {
            rest
        }
    }
}

/// `i` is the winning override for `key`: among overrides on `key` it has
/// the highest priority, and the latest handle among equal priorities.
pub open spec fn override_winner<V>(m: Seq<(u64, Modifier<V>)>, key: u64, i: int) -> bool {
    &&& 0 <= i < m.len()
    &&& m[i].1.key.0 == key
    &&& m[i].1.op == ModOp::Override
    &&& forall|j: int| 0 <= j < m.len() && j != i && (#[trigger] m[j]).1.key.0 == key && m[j].1.op == ModOp::Override
        ==> m[j].1.priority < m[i].1.priority || (m[j].1.priority == m[i].1.priority && m[j].0 < m[i].0)
}

pub open spec fn has_override<V>(m: Seq<(u64, Modifier<V>)>, key: u64) -> bool {
    exists|j: int| 0 <= j < m.len() && (#[trigger] m[j]).1.key.0 == key && m[j].1.op == ModOp::Override
}

/// A keyed stat container; one per entity.
pub struct StatSheet<V> {
    base: HashMap<u64, V>,
    mods: Vec<(u64, Modifier<V>)>,
    cache: HashMap<u64, (V, bool)>,
    next_handle: u64,
}

impl<V: Copy> StatSheet<V> {
    pub closed spec fn bases(self) -> Map<u64, V> {
        self.base@
    }

    /// Modifiers with their handles, in handle order.
    pub closed spec fn modifiers(self) -> Seq<(u64, Modifier<V>)> {
        self.mods@
    }

    /// Cached (value, valid) per key.
    pub closed spec fn cached(self) -> Map<u64, (V, bool)> {
        self.cache@
    }

    /// Next handle to hand out.
    pub closed spec fn next(self) -> u64 {
        self.next_handle
    }

    pub closed spec fn wf(self) -> bool {
        &&& handles_ascending(self.mods@)
        &&& forall|i: int| 0 <= i < self.mods@.len() ==> (#[trigger] self.mods@[i]).0 < self.next_handle
    }

    /// The cached value of `key` is usable.
    pub open spec fn valid_cache(self, key: u64) -> bool {
        self.cached().contains_key(key) && self.cached()[key].1
    }

    pub fn new() -> (r: Self)
        ensures
            r.wf(),
            r.bases() == Map::<u64, V>::empty(),
            r.modifiers() == Seq::<(u64, Modifier<V>)>::empty(),
            r.cached() == Map::<u64, (V, bool)>::empty(),
            r.next() == 0,
    {
        StatSheet { base: HashMap::new(), mods: Vec::new(), cache: HashMap::new(), next_handle: 0 }
    }

    fn find_pair<T>(v: &Vec<(u64, T)>, k: u64) -> (r: Option<usize>)
        ensures
            match r {
                Some(i) => i < v@.len() && v@[i as int].0 == k,
                None => !bundle_map(v@).contains_key(k),
            },
    {
        let n = v.len();
        let mut i: usize = 0;
        while i < n
            invariant
                n == v@.len(),
                i <= n,
                forall|j: int| 0 <= j < i ==> v@[j].0 != k,
            decreases n - i,
        {
            if v[i].0 == k {
                return Some(i);
            }
            i = i + 1;
        }
        None
    }

    /// Marks the cached value of `key` stale (no effect if none is cached).
    fn invalidate(&mut self, key: StatKey)
        requires
            old(self).wf(),
        ensures
            final(self).wf(),
            final(self).bases() == old(self).bases(),
            final(self).modifiers() == old(self).modifiers(),
            final(self).next() == old(self).next(),
            final(self).cached() == if old(self).cached().contains_key(key.0) {
                old(self).cached().insert(key.0, (old(self).cached()[key.0].0, false))
            } else {
                old(self).cached()
            },
    {
        let cur: Option<V> = match self.cache.get(&key.0) {
            Some(p) => Some(p.0),
            None => None,
        };
        if let Some(v) = cur {
            self.cache.insert(key.0, (v, false));
        }
    }

    /// Sets the base value of `key`, invalidating its cached value.
    pub fn set_base(&mut self, key: StatKey, value: V)
        requires
            old(self).wf(),
        ensures
            final(self).wf(),
            final(self).bases() == old(self).bases().insert(key.0, value),
            final(self).modifiers() == old(self).modifiers(),
            final(self).next() == old(self).next(),
            !final(self).valid_cache(key.0),
            forall|k: u64| k != key.0 ==> #[trigger] final(self).cached().contains_key(k) == old(self).cached().contains_key(k)
                && final(self).cached()[k] == old(self).cached()[k],
    {
        self.base.insert(key.0, value);
        self.invalidate(key);
    }

    /// Builder form of [`StatSheet::set_base`].
    pub fn with(self, key: StatKey, base: V) -> (r: Self)
        requires
            self.wf(),
        ensures
            r.wf(),
            r.bases() == self.bases().insert(key.0, base),
            r.modifiers() == self.modifiers(),
            r.next() == self.next(),
            !r.valid_cache(key.0),
    {
        let mut s = self;
        s.set_base(key, base);
        s
    }

    /// The base value of `key`, if set.
    pub fn base_of(&self, key: StatKey) -> (r: Option<V>)
        requires
            self.wf(),
        ensures
            match r {
                Some(v) => self.bases().contains_key(key.0) && v == self.bases()[key.0],
                None => !self.bases().contains_key(key.0),
            },
    {
        match self.base.get(&key.0) {
            Some(v) => Some(*v),
            None => None,
        }
    }

    /// The handle the next modifier will get (handles issued so far).
    pub fn handles_issued(&self) -> (r: u64)
        ensures
            r == self.next(),
    {
        self.next_handle
    }

    pub fn add_modifier(&mut self, key: StatKey, op: ModOp, value: V) -> (h: ModifierHandle)
        requires
            old(self).wf(),
            old(self).next() < u64::MAX,
        ensures
            final(self).wf(),
            h.0 == old(self).next(),
            final(self).next() == old(self).next() + 1,
            final(self).modifiers() == old(self).modifiers().push((h.0, Modifier { key, op, value, priority: 0 })),
            final(self).bases() == old(self).bases(),
            !final(self).valid_cache(key.0),
            forall|k: u64| k != key.0 ==> #[trigger] final(self).cached().contains_key(k) == old(self).cached().contains_key(k)
                && final(self).cached()[k] == old(self).cached()[k],
    {
        self.add_modifier_prio(key, op, value, 0)
    }

    /// Adds a modifier under the next handle, invalidating `key`'s cache.
    pub fn add_modifier_prio(&mut self, key: StatKey, op: ModOp, value: V, priority: i32) -> (h: ModifierHandle)
        requires
            old(self).wf(),
            old(self).next() < u64::MAX,
        ensures
            final(self).wf(),
            h.0 == old(self).next(),
            final(self).next() == old(self).next() + 1,
            final(self).modifiers() == old(self).modifiers().push((h.0, Modifier { key, op, value, priority })),
            final(self).bases() == old(self).bases(),
            !final(self).valid_cache(key.0),
            forall|k: u64| k != key.0 ==> #[trigger] final(self).cached().contains_key(k) == old(self).cached().contains_key(k)
                && final(self).cached()[k] == old(self).cached()[k],
    {
        let h = self.next_handle;
        self.next_handle = self.next_handle + 1;
        self.mods.push((h, Modifier { key, op, value, priority }));
        self.invalidate(key);
        ModifierHandle(h)
    }

    /// Removes modifier `h`, invalidating its key's cache; returns whether it
    /// existed.
    pub fn remove_modifier(&mut self, h: ModifierHandle) -> (r: bool)
        requires
            old(self).wf(),
        ensures
            final(self).wf(),
            final(self).bases() == old(self).bases(),
            final(self).next() == old(self).next(),
            r == exists|i: int| 0 <= i < old(self).modifiers().len() && old(self).modifiers()[i].0 == h.0,
            !r ==> final(self).modifiers() == old(self).modifiers() && final(self).cached() == old(self).cached(),
            r ==> exists|i: int| {
                &&& 0 <= i < old(self).modifiers().len()
                &&& old(self).modifiers()[i].0 == h.0
                &&& final(self).modifiers() == old(self).modifiers().remove(i)
                &&& !final(self).valid_cache(old(self).modifiers()[i].1.key.0)
                &&& forall|k: u64| k != old(self).modifiers()[i].1.key.0 ==> #[trigger] final(self).cached().contains_key(k)
                    == old(self).cached().contains_key(k) && final(self).cached()[k] == old(self).cached()[k]
            },
    {
        match Self::find_pair(&self.mods, h.0) {
            Some(i) => {
                let ghost pre = self.mods@;
                let (_, m) = self.mods.remove(i);
                proof {
                    assert forall|a: int, b: int| 0 <= a < b < self.mods@.len() implies self.mods@[a].0 < self.mods@[b].0 by {
                        let oa = if a < i { a } else { a + 1 };
                        let ob = if b < i { b } else { b + 1 };
                        assert(self.mods@[a] == pre[oa]);
                        assert(self.mods@[b] == pre[ob]);
                    }
                    assert forall|a: int| 0 <= a < self.mods@.len() implies (#[trigger] self.mods@[a]).0 < self.next_handle by {
                        let oa = if a < i { a } else { a + 1 };
                        assert(self.mods@[a] == pre[oa]);
                    }
                }
                let ghost mid = self.cached();
                self.invalidate(m.key);
                proof {
                    let ii = i as int;
                    assert(mid == old(self).cached());
                    assert(old(self).modifiers()[ii].0 == h.0);
                    assert(self.modifiers() == old(self).modifiers().remove(ii));
                    assert(!self.valid_cache(old(self).modifiers()[ii].1.key.0));
                    assert(forall|k: u64| k != old(self).modifiers()[ii].1.key.0 ==> #[trigger] self.cached().contains_key(k)
                        == old(self).cached().contains_key(k) && self.cached()[k] == old(self).cached()[k]);
                }
                true
            },
            None => {
                proof {
                    assert forall|i: int| 0 <= i < old(self).modifiers().len() implies old(self).modifiers()[i].0 != h.0 by {
                        if self.mods@[i].0 == h.0 {
                            assert(bundle_map(self.mods@).contains_key(h.0));
                        }
                    }
                }
                false
            },
        }
    }

    /// The cached value of `key`, if it is still valid.
    pub fn cached_value(&self, key: StatKey) -> (r: Option<V>)
        requires
            self.wf(),
        ensures
            match r {
                Some(v) => self.valid_cache(key.0) && v == self.cached()[key.0].0,
                None => !self.valid_cache(key.0),
            },
    {
        match self.cache.get(&key.0) {
            Some(p) => {
                if p.1 {
                    Some(p.0)
                } else {
                    None
                }
            },
            None => None,
        }
    }

    /// Records a freshly computed value of `key` as valid.
    pub fn store_cached(&mut self, key: StatKey, v: V)
        requires
            old(self).wf(),
        ensures
            final(self).wf(),
            final(self).cached() == old(self).cached().insert(key.0, (v, true)),
            final(self).bases() == old(self).bases(),
            final(self).modifiers() == old(self).modifiers(),
            final(self).next() == old(self).next(),
    {
        self.cache.insert(key.0, (v, true));
    }

    /// Values of the modifiers on `key` with operation `op`, in handle order.
    pub fn modifier_values(&self, key: StatKey, op: ModOp) -> (r: Vec<V>)
        ensures
            r@ == values_of(self.modifiers(), key.0, op),
    {
        let mut out: Vec<V> = Vec::new();
        let n = self.mods.len();
        let mut i: usize = 0;
        while i < n
            invariant
                n == self.mods@.len(),
                i <= n,
                out@ == values_of(self.mods@.take(i as int), key.0, op),
            decreases n - i,
        {
            assert(self.mods@.take(i as int + 1).drop_last() =~= self.mods@.take(i as int));
            let m = self.mods[i].1;
            if m.key.0 == key.0 && m.op == op {
                out.push(m.value);
            }
            i = i + 1;
        }
        assert(self.mods@.take(n as int) =~= self.mods@);
        out
    }

    /// The winning override on `key`: highest priority, latest handle among
    /// equal priorities.
    pub fn override_of(&self, key: StatKey) -> (r: Option<V>)
        requires
            self.wf(),
        ensures
            match r {
                Some(v) => exists|i: int| override_winner(self.modifiers(), key.0, i) && v == self.modifiers()[i].1.value,
                None => !has_override(self.modifiers(), key.0),
            },
    {
        let mut best: Option<usize> = None;
        let n = self.mods.len();
        let mut i: usize = 0;
        while i < n
            invariant
                n == self.mods@.len(),
                i <= n,
                self.wf(),
                match best {
                    Some(b) => b < i && override_winner(self.mods@.take(i as int), key.0, b as int),
                    None => !has_override(self.mods@.take(i as int), key.0),
                },
            decreases n - i,
        {
            let m = self.mods[i].1;
            if m.key.0 == key.0 && m.op == ModOp::Override {
                match best {
                    Some(b) => {
                        let cur = self.mods[b].1;
                        // the earlier candidate stays only with a strictly higher priority
                        if !(cur.priority > m.priority) {
                            best = Some(i);
                        }
                    },
                    None => {
                        best = Some(i);
                    },
                }
            }
            proof {
                let t = self.mods@.take(i as int + 1);
                let t0 = self.mods@.take(i as int);
                assert forall|j: int| 0 <= j < i implies t[j] == t0[j] by {}
                match best {
                    Some(b) => {
                        assert forall|j: int| 0 <= j < t.len() && j != b && (#[trigger] t[j]).1.key.0 == key.0 && t[j].1.op == ModOp::Override
                            implies t[j].1.priority < t[b as int].1.priority || (t[j].1.priority == t[b as int].1.priority && t[j].0 < t[b as int].0) by {
                            if j < i && b as int == i as int {
                                assert(t0[j] == t[j]);
                                assert(self.mods@[j].0 < self.mods@[i as int].0);
                            }
                        }
                        assert(override_winner(t, key.0, b as int));
                    },
                    None => {
                        assert forall|j: int| 0 <= j < t.len() implies !((#[trigger] t[j]).1.key.0 == key.0 && t[j].1.op == ModOp::Override) by {
                            if j < i {
                                assert(t0[j] == t[j]);
                            }
                        }
                    },
                }
            }
            i = i + 1;
        }
        assert(self.mods@.take(n as int) =~= self.mods@);
        match best {
            Some(b) => {
                proof {
                    assert(override_winner(self.modifiers(), key.0, b as int));
                }
                Some(self.mods[b].1.value)
            },
            None => None,
        }
    }
}

/// Law: the override winner is unique.
pub proof fn law_override_winner_unique<V>(m: Seq<(u64, Modifier<V>)>, key: u64, i: int, j: int)
    requires
        handles_ascending(m),
        override_winner(m, key, i),
        override_winner(m, key, j),
    ensures
        i == j,
{
    if i != j {
        assert(m[j].1.key.0 == key);
        assert(m[i].1.key.0 == key);
        if i < j {
            assert(m[i].0 < m[j].0);
        } else {
            assert(m[j].0 < m[i].0);
        }
    }
}


impl<V: Copy> Default for StatSheet<V> {
    fn default() -> (r: Self)
        ensures
            r.wf(),
            r.bases() == Map::<u64, V>::empty(),
            r.modifiers() == Seq::<(u64, Modifier<V>)>::empty(),
            r.cached() == Map::<u64, (V, bool)>::empty(),
            r.next() == 0,
    {
        StatSheet::new()
    }
}

} // verus!
