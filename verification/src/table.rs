//! Weighted tables with pity (streak-breaker) bookkeeping. Every miss ramps
//! an entry's effective weight by its pity ramp; a hit resets it.
//!
//! Weights and ramps are `f32` bit patterns; turning them into an effective
//! weight and drawing the index is the caller's arithmetic. This module keeps
//! the entries and the miss counters.

use vstd::prelude::*;

verus! {

/// One table entry. `weight_bits` and `pity_ramp_bits` hold the bit
/// patterns of the entry's `f32` base weight and per-miss ramp (effective
/// weight: `w * (1 + ramp * misses)`).
#[derive(Clone, Debug)]
pub struct TableEntry<T> {
    pub item: T,
    pub weight_bits: u32,
    pub pity_ramp_bits: u32,
    /// Rolls missed since this entry last came up.
    pub misses: u32,
}

/// Miss counters of a list of entries.
pub open spec fn misses_of<T>(es: Seq<TableEntry<T>>) -> Seq<int> {
    es.map_values(|e: TableEntry<T>| e.misses as int)
}

/// Counters after a roll that picked `idx`: the pick resets, every other
/// entry misses once more.
pub open spec fn after_pick(m: Seq<int>, idx: int) -> Seq<int> {
    Seq::new(m.len(), |i: int| if i == idx { 0 } else { m[i] + 1 })
}

pub struct WeightedTable<T> {
    entries: Vec<TableEntry<T>>,
}

impl<T> WeightedTable<T> {
    /// The entries, in insertion order.
    pub closed spec fn spec_entries(&self) -> Seq<TableEntry<T>> {
        self.entries@
    }

    pub fn new() -> (r: Self)
        ensures
            r.spec_entries() == Seq::<TableEntry<T>>::empty(),
    {
        WeightedTable { entries: Vec::new() }
    }

    /// Appends a fresh entry; returns the table for chaining.
    pub fn push(&mut self, item: T, weight_bits: u32, pity_ramp_bits: u32) -> (r: &mut Self)
        ensures
            r.spec_entries().len() == old(self).spec_entries().len() + 1,
            r.spec_entries().drop_last() == old(self).spec_entries(),
            r.spec_entries().last().item == item,
            r.spec_entries().last().weight_bits == weight_bits,
            r.spec_entries().last().pity_ramp_bits == pity_ramp_bits,
            r.spec_entries().last().misses == 0,
            *final(self) == *final(r),
    {
        self.entries.push(TableEntry { item, weight_bits, pity_ramp_bits, misses: 0 });
        assert(self.entries@.drop_last() =~= old(self).entries@);
        self
    }

    pub fn from_entries(entries: Vec<TableEntry<T>>) -> (r: Self)
        ensures
            r.spec_entries() == entries@,
    {
        WeightedTable { entries }
    }

    pub fn len(&self) -> (r: usize)
        ensures
            r == self.spec_entries().len(),
    {
        self.entries.len()
    }

    pub fn is_empty(&self) -> (r: bool)
        ensures
            r == (self.spec_entries().len() == 0),
    {
        self.entries.len() == 0
    }

    /// The entries, in insertion order.
    pub fn entries(&self) -> (r: &[TableEntry<T>])
        ensures
            r@ == self.spec_entries(),
    {
        self.entries.as_slice()
    }

    /// Records a roll that picked entry `idx` and returns its item: `idx`'s
    /// miss count resets to zero and every other entry's grows by one.
    pub fn record_pick(&mut self, idx: usize) -> (r: &T)
        requires
            idx < old(self).spec_entries().len(),
            forall|i: int| 0 <= i < old(self).spec_entries().len() && i != idx
                ==> (#[trigger] old(self).spec_entries()[i]).misses < u32::MAX,
        ensures
            final(self).spec_entries().len() == old(self).spec_entries().len(),
            misses_of(final(self).spec_entries()) == after_pick(misses_of(old(self).spec_entries()), idx as int),
            forall|i: int| 0 <= i < final(self).spec_entries().len() ==> {
                &&& (#[trigger] final(self).spec_entries()[i]).item == old(self).spec_entries()[i].item
                &&& final(self).spec_entries()[i].weight_bits == old(self).spec_entries()[i].weight_bits
                &&& final(self).spec_entries()[i].pity_ramp_bits == old(self).spec_entries()[i].pity_ramp_bits
            },
            *r == final(self).spec_entries()[idx as int].item,
    {
        let ghost pre = self.entries@;
        let n = self.entries.len();
        let mut i: usize = 0;
        while i < n
            invariant
                n == self.entries@.len(),
                n == pre.len(),
                idx < n,
                i <= n,
                forall|j: int| 0 <= j < n && j != idx ==> (#[trigger] pre[j]).misses < u32::MAX,
                forall|j: int| 0 <= j < n ==> {
                    &&& (#[trigger] self.entries@[j]).item == pre[j].item
                    &&& self.entries@[j].weight_bits == pre[j].weight_bits
                    &&& self.entries@[j].pity_ramp_bits == pre[j].pity_ramp_bits
                },
                forall|j: int| 0 <= j < i ==> (#[trigger] self.entries@[j]).misses == if j == idx { 0 } else { pre[j].misses + 1 },
                forall|j: int| i <= j < n ==> (#[trigger] self.entries@[j]).misses == pre[j].misses,
            decreases n - i,
        {
            let m = self.entries[i].misses;
            let e = &mut self.entries[i];
            if i == idx {
                e.misses = 0;
            } else {
                e.misses = m + 1;
            }
            i = i + 1;
        }
        assert(misses_of(self.entries@) =~= after_pick(misses_of(pre), idx as int));
        &self.entries[idx].item
    }
}

/// Law (pity): after a pick, the picked entry has no misses and every other
/// entry has exactly one more than before, so an entry that never comes up
/// keeps ramping.
pub proof fn law_pick_resets_only_the_winner(m: Seq<int>, idx: int, j: int)
    requires
        0 <= idx < m.len(),
        0 <= j < m.len(),
    ensures
        after_pick(m, idx)[idx] == 0,
        j != idx ==> after_pick(m, idx)[j] == m[j] + 1,
        after_pick(m, idx).len() == m.len(),
{
}


impl<T> Default for WeightedTable<T> {
    fn default() -> (r: Self)
        ensures
            r.spec_entries() == Seq::<TableEntry<T>>::empty(),
    {
        WeightedTable::new()
    }
}

} // verus!
