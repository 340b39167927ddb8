//! Combat vocabulary and status-effect machinery: interned keys, status
//! definitions and their registry, and the per-entity status bag lifecycle
//! (apply / stack / tick / expire / detonate).

use vstd::prelude::*;
use std::collections::HashMap;
use vstd::string::StringSliceAdditionalSpecFns;
use crate::hash::{key64, spec_key64, spec_fnv1a64};
use crate::ecs::Entity;

verus! {

/// Interned stat key.
#[derive(Clone, Copy, PartialEq, Eq, PartialOrd, Ord, Hash, Debug, Structural)]
pub struct StatKey(pub u64);

impl StatKey {
    pub fn of(name: &str) -> (k: Self)
        ensures
            k.0 == spec_key64(name),
    {
        StatKey(key64(name))
    }
}

/// How a stat modifier combines with the base value.
#[derive(Clone, Copy, PartialEq, Eq, Debug, Structural)]
pub enum ModOp {
    /// Added to base before multipliers.
    Add,
    /// Summed, then applied as `* (1 + sum)`.
    Mul,
    /// Highest-priority override wins outright (ties: most recent).
    Override,
}

/// Handle of one stat modifier.
#[derive(Clone, Copy, PartialEq, Eq, PartialOrd, Ord, Hash, Debug, Structural)]
pub struct ModifierHandle(pub u64);

/// Interned status id.
#[derive(Clone, Copy, PartialEq, Eq, PartialOrd, Ord, Hash, Debug, Structural)]
pub struct StatusId(pub u64);

impl StatusId {
    pub fn of(name: &str) -> (k: Self)
        ensures
            k.0 == spec_key64(name),
    {
        StatusId(key64(name))
    }
}

/// Interned trigger kind.
#[derive(Clone, Copy, PartialEq, Eq, Hash, Debug, Structural)]
pub struct TriggerKind(pub u64);

impl TriggerKind {
    pub fn of(name: &str) -> (k: Self)
        ensures
            k.0 == spec_key64(name),
    {
        TriggerKind(key64(name))
    }
}

/// Definition of a status effect (game data).
#[derive(Clone, Debug)]
pub struct StatusDef {
    pub name: String,
    /// 0 = unstackable (re-apply refreshes only).
    pub max_stacks: u32,
    /// Lifetime in sim ticks. 0 = permanent until removed/detonated.
    pub duration_ticks: u32,
    /// Emit `Ticked` every N ticks. 0 = never ticks.
    pub tick_interval: u32,
    /// Re-applying resets the remaining duration.
    pub refresh_on_apply: bool,
}

/// Id of the status named `name` (FNV-1a of its UTF-8 bytes).
pub open spec fn name_id(name: String) -> u64 {
    spec_fnv1a64(vstd::utf8::encode_utf8(name@))
}

impl StatusDef {
    pub open spec fn spec_id(&self) -> u64 {
        name_id(self.name)
    }

    pub fn id(&self) -> (r: StatusId)
        ensures
            r.0 == self.spec_id(),
    {
        StatusId(key64(self.name.as_str()))
    }

    /// Stack cap: `max_stacks`, with 0 meaning a single stack.
    pub open spec fn cap(&self) -> u32 {
        if self.max_stacks == 0 {
            1
        } else {
            self.max_stacks
        }
    }
}

/// Registry of status definitions, keyed by id.
pub struct StatusRegistry {
    defs: HashMap<u64, StatusDef>,
}

impl StatusRegistry {
    /// Definitions by id.
    pub closed spec fn defs(self) -> Map<u64, StatusDef> {
        self.defs@
    }

    /// Every definition sits under its own id.
    pub closed spec fn wf(self) -> bool {
        forall|k: u64| #[trigger] self.defs@.contains_key(k) ==> k == self.defs@[k].spec_id()
    }

    pub fn new() -> (r: Self)
        ensures
            r.wf(),
            r.defs() == Map::<u64, StatusDef>::empty(),
    {
        StatusRegistry { defs: HashMap::new() }
    }

    /// Registers (or replaces) `def` under its id.
    pub fn register(&mut self, def: StatusDef) -> (id: StatusId)
        requires
            old(self).wf(),
        ensures
            final(self).wf(),
            id.0 == def.spec_id(),
            final(self).defs() == old(self).defs().insert(id.0, def),
            final(self).defs().dom().finite(),
            final(self).defs().len() == old(self).defs().len() + if old(self).defs().contains_key(id.0) { 0int } else { 1int },
    {
        let id = def.id();
        self.defs.insert(id.0, def);
        id
    }

    pub fn get(&self, id: StatusId) -> (r: Option<&StatusDef>)
        requires
            self.wf(),
        ensures
            match r {
                Some(d) => self.defs().contains_key(id.0) && *d == self.defs()[id.0],
                None => !self.defs().contains_key(id.0),
            },
    {
        self.defs.get(&id.0)
    }

    /// Law: a registry holds finitely many definitions.
    pub proof fn law_defs_finite(self)
        requires
            self.wf(),
        ensures
            self.defs().dom().finite(),
    {
    }

    pub fn len(&self) -> (r: usize)
        requires
            self.wf(),
        ensures
            r == self.defs().len(),
    {
        self.defs.len()
    }

    pub fn is_empty(&self) -> (r: bool)
        requires
            self.wf(),
        ensures
            r == (self.defs().len() == 0),
    {
        self.defs.is_empty()
    }
}

/// One active status on an entity. `M` is the game-defined payload (e.g.
/// damage per tick).
#[derive(Clone, Copy, Debug)]
pub struct ActiveStatus<M> {
    pub id: StatusId,
    pub stacks: u32,
    pub remaining: u32,
    /// Ticks left until the next `Ticked` event.
    pub tick_timer: u32,
    pub magnitude: M,
}

/// Lifecycle events emitted by a [`StatusBag`].
#[derive(Clone, Copy, Debug)]
pub enum StatusEvent<M> {
    Applied { entity: Entity, id: StatusId, stacks: u32 },
    Ticked { entity: Entity, id: StatusId, stacks: u32, magnitude: M },
    Expired { entity: Entity, id: StatusId, stacks: u32 },
    Detonated { entity: Entity, id: StatusId, stacks: u32, magnitude: M },
}

/// `i` is the first position of status `id` in `s`.
pub open spec fn first_at<M>(s: Seq<ActiveStatus<M>>, id: u64, i: int) -> bool {
    &&& 0 <= i < s.len()
    &&& s[i].id.0 == id
    &&& forall|j: int| 0 <= j < i ==> (#[trigger] s[j]).id.0 != id
}

pub open spec fn has_id<M>(s: Seq<ActiveStatus<M>>, id: u64) -> bool {
    exists|i: int| 0 <= i < s.len() && (#[trigger] s[i]).id.0 == id
}

/// Stacks of `id` in `s` (0 when absent).
pub open spec fn stacks_of<M>(s: Seq<ActiveStatus<M>>, id: u64) -> u32 {
    if has_id(s, id) {
        s[choose|i: int| first_at(s, id, i)].stacks
    } else {
        0
    }
}

pub proof fn lemma_first_unique<M>(s: Seq<ActiveStatus<M>>, id: u64, i: int, j: int)
    requires
        first_at(s, id, i),
        first_at(s, id, j),
    ensures
        i == j,
{
    if i < j {
        assert(s[i].id.0 != id);
    } else if j < i {
        assert(s[j].id.0 != id);
    }
}

/// `Vec::swap_remove` on sequences.
pub open spec fn swap_out<T>(s: Seq<T>, i: int) -> Seq<T> {
    s.update(i, s.last()).drop_last()
}

/// The per-tick pass of [`StatusBag::tick`], from position `i` on: tick
/// timers fire `Ticked`, non-permanent statuses with at most one tick left
/// expire (swap-removed, so the last status is examined next at the same
/// position), the rest lose one tick.
pub open spec fn tick_from<M>(
    s: Seq<ActiveStatus<M>>,
    i: int,
    defs: Map<u64, StatusDef>,
    entity: Entity,
    evs: Seq<StatusEvent<M>>,
) -> (Seq<ActiveStatus<M>>, Seq<StatusEvent<M>>)
    decreases s.len() - i,
{
    if i < 0 || i >= s.len() {
        (s, evs)
    } else {
        let st = s[i];
        let known = defs.contains_key(st.id.0);
        let interval: u32 = if known { defs[st.id.0].tick_interval } else { 0 };
        let dec: u32 = if st.tick_timer == 0 { 0 } else { (st.tick_timer - 1) as u32 };
        let fires = interval > 0 && dec == 0;
        let timer: u32 = if interval > 0 { if dec == 0 { interval } else { dec } } else { st.tick_timer };
        let evs1 = if fires {
            evs.push(StatusEvent::Ticked { entity, id: st.id, stacks: st.stacks, magnitude: st.magnitude })
        } else {
            evs
        };
        let st1 = ActiveStatus { tick_timer: timer, ..st };
        let permanent = known && defs[st.id.0].duration_ticks == 0;
        if !permanent && st.remaining <= 1 {
            tick_from(
                swap_out(s, i),
                i,
                defs,
                entity,
                evs1.push(StatusEvent::Expired { entity, id: st.id, stacks: st.stacks }),
            )
        } else if !permanent {
            tick_from(s.update(i, ActiveStatus { remaining: (st.remaining - 1) as u32, ..st1 }), i + 1, defs, entity, evs1)
        } else {
            tick_from(s.update(i, st1), i + 1, defs, entity, evs1)
        }
    }
}

/// Per-entity component holding active statuses.
#[derive(Clone, Debug)]
pub struct StatusBag<M> {
    pub active: Vec<ActiveStatus<M>>,
}

impl<M: Copy> StatusBag<M> {
    pub fn new() -> (r: Self)
        ensures
            r.active@ == Seq::<ActiveStatus<M>>::empty(),
    {
        StatusBag { active: Vec::new() }
    }

    fn position(&self, id: StatusId) -> (r: Option<usize>)
        ensures
            match r {
                Some(i) => first_at(self.active@, id.0, i as int),
                None => !has_id(self.active@, id.0),
            },
    {
        let n = self.active.len();
        let mut i: usize = 0;
        while i < n
            invariant
                n == self.active@.len(),
                i <= n,
                forall|j: int| 0 <= j < i ==> (#[trigger] self.active@[j]).id.0 != id.0,
            decreases n - i,
        {
            if self.active[i].id.0 == id.0 {
                return Some(i);
            }
            i = i + 1;
        }
        None
    }

    /// The first active status with id `id`.
    pub fn get(&self, id: StatusId) -> (r: Option<&ActiveStatus<M>>)
        ensures
            match r {
                Some(a) => exists|i: int| first_at(self.active@, id.0, i) && *a == self.active@[i],
                None => !has_id(self.active@, id.0),
            },
    {
        match self.position(id) {
            Some(i) => Some(&self.active[i]),
            None => None,
        }
    }

    pub fn has(&self, id: StatusId) -> (r: bool)
        ensures
            r == has_id(self.active@, id.0),
    {
        self.position(id).is_some()
    }

    pub fn stacks(&self, id: StatusId) -> (r: u32)
        ensures
            r == stacks_of(self.active@, id.0),
    {
        match self.position(id) {
            Some(i) => {
                proof {
                    let j = choose|j: int| first_at(self.active@, id.0, j);
                    lemma_first_unique(self.active@, id.0, i as int, j);
                }
                self.active[i].stacks
            },
            None => 0,
        }
    }

    /// Applies `stacks` of `def`. An already-active status gains stacks up to
    /// the cap, keeps the larger magnitude (by `max`) and, when the
    /// definition says so, restarts its duration; a new status starts with
    /// at least one stack (capped). Emits `Applied` with the resulting
    /// stack count.
    pub fn apply(
        &mut self,
        entity: Entity,
        def: &StatusDef,
        stacks: u32,
        magnitude: M,
        max: impl Fn(M, M) -> M,
        events: &mut Vec<StatusEvent<M>>,
    )
        requires
            forall|a: M, b: M| max.requires((a, b)),
            stacks + stacks_of(old(self).active@, def.spec_id()) <= u32::MAX,
        ensures
            ({
                let id = def.spec_id();
                let s = old(self).active@;
                if has_id(s, id) {
                    exists|i: int, m: M| #![trigger first_at(s, id, i), max.ensures((s[i].magnitude, magnitude), m)] {
                        let st = s[i];
                        let n = if st.stacks + stacks <= def.cap() { (st.stacks + stacks) as u32 } else { def.cap() };
                        &&& first_at(s, id, i)
                        &&& max.ensures((st.magnitude, magnitude), m)
                        &&& final(self).active@ == s.update(i, ActiveStatus {
                            stacks: n,
                            remaining: if def.refresh_on_apply { def.duration_ticks } else { st.remaining },
                            magnitude: m,
                            ..st
                        })
                        &&& final(events)@ == old(events)@.push(StatusEvent::Applied { entity, id: StatusId(id), stacks: n })
                    }
                } else {
                    let req: u32 = if stacks >= 1 { stacks } else { 1 };
                    let n: u32 = if req <= def.cap() { req } else { def.cap() };
                    &&& final(self).active@ == s.push(ActiveStatus { id: StatusId(id), stacks: n, remaining: def.duration_ticks, tick_timer: def.tick_interval, magnitude })
                    &&& final(events)@ == old(events)@.push(StatusEvent::Applied { entity, id: StatusId(id), stacks: n })
                }
            }),
    {
        let id = def.id();
        let cap = if def.max_stacks == 0 {
            1
        } else {
            def.max_stacks
        };
        match self.position(id) {
            Some(i) => {
                proof {
                    let j = choose|j: int| first_at(self.active@, id.0, j);
                    lemma_first_unique(self.active@, id.0, i as int, j);
                }
                let mut s = self.active[i];
                let total = s.stacks + stacks;
                s.stacks = if total < cap {
                    total
                } else {
                    cap
                };
                s.magnitude = max(s.magnitude, magnitude);
                if def.refresh_on_apply {
                    s.remaining = def.duration_ticks;
                }
                let n = s.stacks;
                self.active.set(i, s);
                events.push(StatusEvent::Applied { entity, id, stacks: n });
            },
            None => {
                let req = if stacks > 1 {
                    stacks
                } else {
                    1
                };
                let n = if req < cap {
                    req
                } else {
                    cap
                };
                self.active.push(
                    ActiveStatus {
                        id,
                        stacks: n,
                        remaining: def.duration_ticks,
                        tick_timer: def.tick_interval,
                        magnitude,
                    },
                );
                events.push(StatusEvent::Applied { entity, id, stacks: n });
            },
        }
    }

    /// Advances one sim tick: emits `Ticked` on interval and `Expired` on
    /// timeout (expired statuses are swap-removed).
    pub fn tick(&mut self, entity: Entity, registry: &StatusRegistry, events: &mut Vec<StatusEvent<M>>)
        requires
            registry.wf(),
        ensures
            (final(self).active@, final(events)@) == tick_from(old(self).active@, 0, registry.defs(), entity, old(events)@),
    {
        let mut i: usize = 0;
        while i < self.active.len()
            invariant
                registry.wf(),
                i <= self.active@.len(),
                tick_from(old(self).active@, 0, registry.defs(), entity, old(events)@)
                    == tick_from(self.active@, i as int, registry.defs(), entity, events@),
            decreases self.active@.len() - i,
        {
            let ghost s0 = self.active@;
            let ghost e0 = events@;
            let mut s = self.active[i];
            let def = registry.get(s.id);
            let interval = match def {
                Some(d) => d.tick_interval,
                None => 0,
            };
            if interval > 0 {
                s.tick_timer = if s.tick_timer > 0 {
                    s.tick_timer - 1
                } else {
                    0
                };
                if s.tick_timer == 0 {
                    s.tick_timer = interval;
                    events.push(StatusEvent::Ticked { entity, id: s.id, stacks: s.stacks, magnitude: s.magnitude });
                }
            }
            let permanent = match def {
                Some(d) => d.duration_ticks == 0,
                None => false,
            };
            if !permanent {
                if s.remaining <= 1 {
                    let ev = StatusEvent::Expired { entity, id: s.id, stacks: s.stacks };
                    self.active.swap_remove(i);
                    events.push(ev);
                    proof {
                        assert(self.active@ == swap_out(s0, i as int));
                    }
                    continue;
                }
                s.remaining = s.remaining - 1;
            }
            self.active.set(i, s);
            proof {
                let st = s0[i as int];
                assert(s.id == st.id && s.stacks == st.stacks && s.magnitude == st.magnitude);
                if !permanent {
                    assert(self.active@ =~= s0.update(i as int, ActiveStatus { remaining: (st.remaining - 1) as u32, ..ActiveStatus { tick_timer: s.tick_timer, ..st } }));
                } else {
                    assert(self.active@ =~= s0.update(i as int, ActiveStatus { tick_timer: s.tick_timer, ..st }));
                }
            }
            i = i + 1;
        }
    }

    /// Removes status `id`, emitting `Detonated`; returns its (stacks,
    /// magnitude) if it was present.
    pub fn detonate(&mut self, entity: Entity, id: StatusId, events: &mut Vec<StatusEvent<M>>) -> (r: Option<(u32, M)>)
        ensures
            match r {
                Some((n, m)) => exists|i: int| {
                    &&& first_at(old(self).active@, id.0, i)
                    &&& n == old(self).active@[i].stacks
                    &&& m == old(self).active@[i].magnitude
                    &&& final(self).active@ == swap_out(old(self).active@, i)
                    &&& final(events)@ == old(events)@.push(StatusEvent::Detonated { entity, id, stacks: n, magnitude: m })
                },
                None => !has_id(old(self).active@, id.0) && final(self).active@ == old(self).active@
                    && final(events)@ == old(events)@,
            },
    {
        let idx = match self.position(id) {
            Some(i) => i,
            None => return None,
        };
        let ghost pre = self.active@;
        let s = self.active.swap_remove(idx);
        events.push(StatusEvent::Detonated { entity, id, stacks: s.stacks, magnitude: s.magnitude });
        assert(first_at(pre, id.0, idx as int) && self.active@ == swap_out(pre, idx as int));
        Some((s.stacks, s.magnitude))
    }

    /// Silent removal (dispel); returns whether the status was present.
    pub fn remove(&mut self, id: StatusId) -> (r: bool)
        ensures
            r == has_id(old(self).active@, id.0),
            r ==> exists|i: int| first_at(old(self).active@, id.0, i) && final(self).active@ == swap_out(old(self).active@, i),
            !r ==> final(self).active@ == old(self).active@,
    {
        match self.position(id) {
            Some(i) => {
                let ghost pre = self.active@;
                self.active.swap_remove(i);
                assert(self.active@ == swap_out(pre, i as int));
                assert(first_at(pre, id.0, i as int) && self.active@ == swap_out(pre, i as int));
                true
            },
            None => false,
        }
    }
}

/// A status is still counting down or never expires.
pub open spec fn still_running<M>(st: ActiveStatus<M>, defs: Map<u64, StatusDef>) -> bool {
    (defs.contains_key(st.id.0) && defs[st.id.0].duration_ticks == 0) || st.remaining >= 1
}

proof fn lemma_tick_from_running<M>(
    s: Seq<ActiveStatus<M>>,
    i: int,
    defs: Map<u64, StatusDef>,
    entity: Entity,
    evs: Seq<StatusEvent<M>>,
)
    requires
        0 <= i <= s.len(),
        forall|j: int| 0 <= j < i ==> still_running(#[trigger] s[j], defs),
    ensures
        forall|j: int| 0 <= j < tick_from(s, i, defs, entity, evs).0.len()
            ==> still_running(#[trigger] tick_from(s, i, defs, entity, evs).0[j], defs),
    decreases s.len() - i,
{
    if i >= s.len() {
        assert(tick_from(s, i, defs, entity, evs) == (s, evs));
    } else {
        let st = s[i];
        let known = defs.contains_key(st.id.0);
        let interval: u32 = if known { defs[st.id.0].tick_interval } else { 0 };
        let dec: u32 = if st.tick_timer == 0 { 0 } else { (st.tick_timer - 1) as u32 };
        let fires = interval > 0 && dec == 0;
        let timer: u32 = if interval > 0 { if dec == 0 { interval } else { dec } } else { st.tick_timer };
        let evs1 = if fires {
            evs.push(StatusEvent::Ticked { entity, id: st.id, stacks: st.stacks, magnitude: st.magnitude })
        } else {
            evs
        };
        let st1 = ActiveStatus { tick_timer: timer, ..st };
        let permanent = known && defs[st.id.0].duration_ticks == 0;
        if !permanent && st.remaining <= 1 {
            let s2 = swap_out(s, i);
            assert forall|j: int| 0 <= j < i implies still_running(#[trigger] s2[j], defs) by {
                assert(s2[j] == s[j]);
            }
            let evs2 = evs1.push(StatusEvent::Expired { entity, id: st.id, stacks: st.stacks });
            assert(tick_from(s, i, defs, entity, evs) == tick_from(s2, i, defs, entity, evs2));
            lemma_tick_from_running(s2, i, defs, entity, evs2);
        } else if !permanent {
            let s2 = s.update(i, ActiveStatus { remaining: (st.remaining - 1) as u32, ..st1 });
            assert forall|j: int| 0 <= j < i + 1 implies still_running(#[trigger] s2[j], defs) by {
                if j < i {
                    assert(s2[j] == s[j]);
                }
            }
            assert(tick_from(s, i, defs, entity, evs) == tick_from(s2, i + 1, defs, entity, evs1));
            lemma_tick_from_running(s2, i + 1, defs, entity, evs1);
        } else {
            let s2 = s.update(i, st1);
            assert forall|j: int| 0 <= j < i + 1 implies still_running(#[trigger] s2[j], defs) by {
                if j < i {
                    assert(s2[j] == s[j]);
                }
            }
            assert(tick_from(s, i, defs, entity, evs) == tick_from(s2, i + 1, defs, entity, evs1));
            lemma_tick_from_running(s2, i + 1, defs, entity, evs1);
        }
    }
}

/// Law: after a tick no status that has run out of time survives: every
/// remaining status is permanent or still has at least one tick left.
pub proof fn law_tick_leaves_no_expired<M>(
    s: Seq<ActiveStatus<M>>,
    defs: Map<u64, StatusDef>,
    entity: Entity,
    evs: Seq<StatusEvent<M>>,
)
    ensures
        forall|j: int| 0 <= j < tick_from(s, 0, defs, entity, evs).0.len()
            ==> still_running(#[trigger] tick_from(s, 0, defs, entity, evs).0[j], defs),
{
    lemma_tick_from_running(s, 0, defs, entity, evs);
}

/// Status `x` has the id, stack count and magnitude of some status of `s0`.
pub open spec fn carried_from<M>(x: ActiveStatus<M>, s0: Seq<ActiveStatus<M>>) -> bool {
    exists|j: int| 0 <= j < s0.len() && (#[trigger] s0[j]).id == x.id && s0[j].stacks == x.stacks && s0[j].magnitude == x.magnitude
}

/// Event `ev` is a `Ticked` or `Expired` report, for `entity`, of a status
/// of `s0` with the stack count (and, for `Ticked`, the magnitude) that
/// status held.
pub open spec fn reports_status_of<M>(ev: StatusEvent<M>, s0: Seq<ActiveStatus<M>>, entity: Entity) -> bool {
    match ev {
        StatusEvent::Ticked { entity: e, id, stacks, magnitude } => e == entity && exists|j: int|
            0 <= j < s0.len() && (#[trigger] s0[j]).id == id && s0[j].stacks == stacks && s0[j].magnitude == magnitude,
        StatusEvent::Expired { entity: e, id, stacks } => e == entity && exists|j: int|
            0 <= j < s0.len() && (#[trigger] s0[j]).id == id && s0[j].stacks == stacks,
        _ => false,
    }
}

proof fn lemma_tick_reports<M>(
    s: Seq<ActiveStatus<M>>,
    i: int,
    defs: Map<u64, StatusDef>,
    entity: Entity,
    evs: Seq<StatusEvent<M>>,
    s0: Seq<ActiveStatus<M>>,
    n0: int,
)
    requires
        0 <= i,
        0 <= n0 <= evs.len(),
        forall|j: int| 0 <= j < s.len() ==> carried_from(#[trigger] s[j], s0),
        forall|k: int| n0 <= k < evs.len() ==> reports_status_of(#[trigger] evs[k], s0, entity),
    ensures
        ({
            let (s2, evs2) = tick_from(s, i, defs, entity, evs);
            &&& evs2.len() >= evs.len()
            &&& forall|k: int| 0 <= k < evs.len() ==> #[trigger] evs2[k] == evs[k]
            &&& forall|k: int| n0 <= k < evs2.len() ==> reports_status_of(#[trigger] evs2[k], s0, entity)
            &&& forall|j: int| 0 <= j < s2.len() ==> carried_from(#[trigger] s2[j], s0)
        }),
    decreases s.len() - i,
{
    if i >= s.len() {
        assert(tick_from(s, i, defs, entity, evs) == (s, evs));
    } else {
        let st = s[i];
        assert(carried_from(st, s0));
        let known = defs.contains_key(st.id.0);
        let interval: u32 = if known { defs[st.id.0].tick_interval } else { 0 };
        let dec: u32 = if st.tick_timer == 0 { 0 } else { (st.tick_timer - 1) as u32 };
        let fires = interval > 0 && dec == 0;
        let timer: u32 = if interval > 0 { if dec == 0 { interval } else { dec } } else { st.tick_timer };
        let evs1 = if fires {
            evs.push(StatusEvent::Ticked { entity, id: st.id, stacks: st.stacks, magnitude: st.magnitude })
        } else {
            evs
        };
        assert forall|k: int| n0 <= k < evs1.len() implies reports_status_of(#[trigger] evs1[k], s0, entity) by {
            if k < evs.len() {
                assert(evs1[k] == evs[k]);
            }
        }
        let st1 = ActiveStatus { tick_timer: timer, ..st };
        let permanent = known && defs[st.id.0].duration_ticks == 0;
        if !permanent && st.remaining <= 1 {
            let s2 = swap_out(s, i);
            assert forall|j: int| 0 <= j < s2.len() implies carried_from(#[trigger] s2[j], s0) by {
                if j == i {
                    assert(s2[j] == s[s.len() - 1]);
                    assert(carried_from(s[s.len() - 1], s0));
                } else {
                    assert(s2[j] == s[j]);
                }
            }
            let evs2 = evs1.push(StatusEvent::Expired { entity, id: st.id, stacks: st.stacks });
            assert forall|k: int| n0 <= k < evs2.len() implies reports_status_of(#[trigger] evs2[k], s0, entity) by {
                if k < evs1.len() {
                    assert(evs2[k] == evs1[k]);
                }
            }
            assert(tick_from(s, i, defs, entity, evs) == tick_from(s2, i, defs, entity, evs2));
            lemma_tick_reports(s2, i, defs, entity, evs2, s0, n0);
            let r = tick_from(s2, i, defs, entity, evs2);
            assert forall|k: int| 0 <= k < evs.len() implies #[trigger] r.1[k] == evs[k] by {
                assert(r.1[k] == evs2[k]);
                assert(evs2[k] == evs1[k]);
            }
        } else {
            let s2 = if !permanent {
                s.update(i, ActiveStatus { remaining: (st.remaining - 1) as u32, ..st1 })
            } else {
                s.update(i, st1)
            };
            assert forall|j: int| 0 <= j < s2.len() implies carried_from(#[trigger] s2[j], s0) by {
                if j != i {
                    assert(s2[j] == s[j]);
                } else {
                    assert(s2[j].id == st.id && s2[j].stacks == st.stacks && s2[j].magnitude == st.magnitude);
                    let w = choose|w: int| 0 <= w < s0.len() && (#[trigger] s0[w]).id == st.id && s0[w].stacks == st.stacks
                        && s0[w].magnitude == st.magnitude;
                    assert(s0[w].id == s2[j].id);
                }
            }
            assert(tick_from(s, i, defs, entity, evs) == tick_from(s2, i + 1, defs, entity, evs1));
            lemma_tick_reports(s2, i + 1, defs, entity, evs1, s0, n0);
            let r = tick_from(s2, i + 1, defs, entity, evs1);
            assert forall|k: int| 0 <= k < evs.len() implies #[trigger] r.1[k] == evs[k] by {
                assert(r.1[k] == evs1[k]);
            }
        }
    }
}

/// Law (tick reports): a tick keeps the events already recorded and adds
/// only `Ticked` and `Expired` events for the ticking entity, each naming a
/// status of the bag with the stack count it held (and, for `Ticked`, its
/// magnitude); every status left in the bag keeps its id, stack count and
/// magnitude.
pub proof fn law_tick_reports_held_stacks<M>(
    s: Seq<ActiveStatus<M>>,
    defs: Map<u64, StatusDef>,
    entity: Entity,
    evs: Seq<StatusEvent<M>>,
)
    ensures
        ({
            let (s2, evs2) = tick_from(s, 0, defs, entity, evs);
            &&& evs2.len() >= evs.len()
            &&& forall|k: int| 0 <= k < evs.len() ==> #[trigger] evs2[k] == evs[k]
            &&& forall|k: int| evs.len() <= k < evs2.len() ==> reports_status_of(#[trigger] evs2[k], s, entity)
            &&& forall|j: int| 0 <= j < s2.len() ==> carried_from(#[trigger] s2[j], s)
        }),
{
    assert forall|j: int| 0 <= j < s.len() implies carried_from(#[trigger] s[j], s) by {
        assert(s[j].id == s[j].id);
    }
    lemma_tick_reports(s, 0, defs, entity, evs, s, evs.len() as int);
}

impl Default for StatusRegistry {
    fn default() -> (r: Self)
        ensures
            r.wf(),
            r.defs() == Map::<u64, StatusDef>::empty(),
    {
        StatusRegistry::new()
    }
}

impl<M: Copy> Default for StatusBag<M> {
    fn default() -> (r: Self)
        ensures
            r.active@ == Seq::<ActiveStatus<M>>::empty(),
    {
        StatusBag::new()
    }
}

} // verus!
