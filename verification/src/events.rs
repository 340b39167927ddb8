//! Double-buffered event channel. Events written during tick N are readable
//! during tick N (same-tick systems later in the schedule) and tick N+1, then
//! dropped.

use vstd::prelude::*;

verus! {

pub struct Events<T> {
    front: Vec<T>,
    back: Vec<T>,
}

impl<T> Events<T> {
    /// Events sent during the current tick, in send order.
    pub closed spec fn current(self) -> Seq<T> {
        self.front@
    }

    /// Events sent during the previous tick, in send order.
    pub closed spec fn previous(self) -> Seq<T> {
        self.back@
    }

    /// Everything readable right now: last tick's events, then this tick's.
    pub open spec fn visible(self) -> Seq<T> {
        self.previous() + self.current()
    }

    pub fn new() -> (r: Self)
        ensures
            r.current() == Seq::<T>::empty(),
            r.previous() == Seq::<T>::empty(),
    {
        Events { front: Vec::new(), back: Vec::new() }
    }

    pub fn send(&mut self, ev: T)
        ensures
            final(self).current() == old(self).current().push(ev),
            final(self).previous() == old(self).previous(),
    {
        self.front.push(ev);
    }

    /// Everything visible right now: last tick's events, then this tick's.
    pub fn iter(&self) -> (r: Vec<&T>)
        ensures
            r@.len() == self.visible().len(),
            forall|i: int| 0 <= i < r@.len() ==> *r@[i] == self.visible()[i],
    {
        let mut out: Vec<&T> = Vec::new();
        let nb = self.back.len();
        let mut i: usize = 0;
        while i < nb
            invariant
                nb == self.back@.len(),
                i <= nb,
                out@.len() == i,
                forall|k: int| 0 <= k < i ==> *out@[k] == self.back@[k],
            decreases nb - i,
        {
            out.push(&self.back[i]);
            i = i + 1;
        }
        let nf = self.front.len();
        let mut j: usize = 0;
        while j < nf
            invariant
                nf == self.front@.len(),
                nb == self.back@.len(),
                j <= nf,
                out@.len() == nb + j,
                forall|k: int| 0 <= k < nb ==> *out@[k] == self.back@[k],
                forall|k: int| 0 <= k < j ==> *out@[nb + k] == self.front@[k],
            decreases nf - j,
        {
            out.push(&self.front[j]);
            j = j + 1;
        }
        out
    }

    /// Takes this tick's events out (last tick's stay readable).
    pub fn drain_current(&mut self) -> (r: Vec<T>)
        ensures
            r@ == old(self).current(),
            final(self).current() == Seq::<T>::empty(),
            final(self).previous() == old(self).previous(),
    {
        let mut out: Vec<T> = Vec::new();
        std::mem::swap(&mut out, &mut self.front);
        out
    }

    pub fn len(&self) -> (r: usize)
        requires
            self.visible().len() <= usize::MAX,
        ensures
            r == self.visible().len(),
    {
        self.front.len() + self.back.len()
    }

    pub fn is_empty(&self) -> (r: bool)
        requires
            self.visible().len() <= usize::MAX,
        ensures
            r == (self.visible().len() == 0),
    {
        self.len() == 0
    }

    /// Call once per tick (end of tick): this tick's events become last
    /// tick's, last tick's are dropped.
    pub fn update(&mut self)
        ensures
            final(self).previous() == old(self).current(),
            final(self).current() == Seq::<T>::empty(),
    {
        std::mem::swap(&mut self.front, &mut self.back);
        self.front.clear();
    }
}

impl<T> Default for Events<T> {
    fn default() -> (r: Self)
        ensures
            r.current() == Seq::<T>::empty(),
            r.previous() == Seq::<T>::empty(),
    {
        Events::new()
    }
}

/// Law: an event sent during a tick is still readable after the end-of-tick
/// `update` (whatever is sent during the next tick), and is gone after the
/// following `update` unless it was sent again.
pub proof fn law_event_lifetime<T>(sent: Events<T>, next: Events<T>, after: Events<T>, ev: T)
    requires
        sent.current().contains(ev),
        next.previous() == sent.current(),
        after.previous() == next.current(),
        after.current() == Seq::<T>::empty(),
        !next.current().contains(ev),
    ensures
        next.visible().contains(ev),
        !after.visible().contains(ev),
{
    let i = choose|i: int| 0 <= i < sent.current().len() && sent.current()[i] == ev;
    assert(next.visible()[i] == ev);
    assert(after.visible() =~= next.current());
}

} // verus!
