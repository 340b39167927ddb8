//! System scheduler. Systems declare component/resource read & write sets;
//! consecutive non-conflicting systems are batched so that each batch can run
//! in parallel. Registration order is preserved as the logical execution
//! order: parallelism only ever happens between systems whose data sets are
//! disjoint.

use vstd::prelude::*;

verus! {

/// A system: its declared data access and the code to run.
pub struct SystemDef<F> {
    pub name: &'static str,
    pub reads: Vec<u64>,
    pub writes: Vec<u64>,
    /// Exclusive systems get the whole world (structural changes allowed) and
    /// always run alone.
    pub exclusive: bool,
    pub run: F,
}

impl<F> SystemDef<F> {
    pub fn exclusive(name: &'static str, run: F) -> (s: Self)
        ensures
            s.name == name,
            s.reads@ == Seq::<u64>::empty(),
            s.writes@ == Seq::<u64>::empty(),
            s.exclusive,
            s.run == run,
    {
        SystemDef { name, reads: Vec::new(), writes: Vec::new(), exclusive: true, run }
    }

    pub fn new(name: &'static str, run: F) -> (s: Self)
        ensures
            s.name == name,
            s.reads@ == Seq::<u64>::empty(),
            s.writes@ == Seq::<u64>::empty(),
            !s.exclusive,
            s.run == run,
    {
        SystemDef { name, reads: Vec::new(), writes: Vec::new(), exclusive: false, run }
    }

    /// Declares a read of data `id`.
    pub fn reads(self, id: u64) -> (s: Self)
        ensures
            s.name == self.name,
            s.reads@ == self.reads@.push(id),
            s.writes@ == self.writes@,
            s.exclusive == self.exclusive,
            s.run == self.run,
    {
        let mut s = self;
        s.reads.push(id);
        s
    }

    /// Declares a write of data `id`.
    pub fn writes(self, id: u64) -> (s: Self)
        ensures
            s.name == self.name,
            s.reads@ == self.reads@,
            s.writes@ == self.writes@.push(id),
            s.exclusive == self.exclusive,
            s.run == self.run,
    {
        let mut s = self;
        s.writes.push(id);
        s
    }
}

/// Two systems may not run concurrently: either is exclusive, or one writes
/// what the other reads or writes.
pub open spec fn spec_conflicts<F>(a: SystemDef<F>, b: SystemDef<F>) -> bool {
    ||| a.exclusive
    ||| b.exclusive
    ||| exists|t: u64| a.writes@.contains(t) && (b.reads@.contains(t) || b.writes@.contains(t))
    ||| exists|t: u64| b.writes@.contains(t) && a.reads@.contains(t)
}

fn contains_id(v: &Vec<u64>, t: u64) -> (r: bool)
    ensures
        r == v@.contains(t),
{
    let n = v.len();
    let mut i: usize = 0;
    while i < n
        invariant
            n == v@.len(),
            i <= n,
            forall|j: int| 0 <= j < i ==> v@[j] != t,
        decreases n - i,
    {
        if v[i] == t {
            return true;
        }
        i = i + 1;
    }
    false
}

fn conflicts<F>(a: &SystemDef<F>, b: &SystemDef<F>) -> (r: bool)
    ensures
        r == spec_conflicts(*a, *b),
{
    if a.exclusive || b.exclusive {
        return true;
    }
    let n = a.writes.len();
    let mut i: usize = 0;
    while i < n
        invariant
            n == a.writes@.len(),
            i <= n,
            forall|j: int| 0 <= j < i ==> !b.reads@.contains(#[trigger] a.writes@[j]) && !b.writes@.contains(a.writes@[j]),
        decreases n - i,
    {
        let t = a.writes[i];
        if contains_id(&b.reads, t) || contains_id(&b.writes, t) {
            return true;
        }
        i = i + 1;
    }
    let m = b.writes.len();
    let mut k: usize = 0;
    while k < m
        invariant
            m == b.writes@.len(),
            k <= m,
            forall|j: int| 0 <= j < k ==> !a.reads@.contains(#[trigger] b.writes@[j]),
        decreases m - k,
    {
        if contains_id(&a.reads, b.writes[k]) {
            return true;
        }
        k = k + 1;
    }
    proof {
        assert forall|t: u64| a.writes@.contains(t) implies !(b.reads@.contains(t) || b.writes@.contains(t)) by {
            let j = choose|j: int| 0 <= j < a.writes@.len() && a.writes@[j] == t;
            assert(!b.reads@.contains(a.writes@[j]));
        }
        assert forall|t: u64| b.writes@.contains(t) implies !a.reads@.contains(t) by {
            let j = choose|j: int| 0 <= j < b.writes@.len() && b.writes@[j] == t;
            assert(!a.reads@.contains(b.writes@[j]));
        }
    }
    false
}

/// Batching state after considering systems `0..n`: the closed batches and
/// the batch still being filled.
pub open spec fn batch_state<F>(sys: Seq<SystemDef<F>>, n: int) -> (Seq<Seq<usize>>, Seq<usize>)
    decreases n,
{
    if n <= 0 {
        (Seq::empty(), Seq::empty())
    } else {
        let (closed, cur) = batch_state(sys, n - 1);
        let i = n - 1;
        let ok = forall|j: int| 0 <= j < cur.len() ==> !spec_conflicts(sys[#[trigger] cur[j] as int], sys[i]);
        if ok && !sys[i].exclusive {
            (closed, cur.push(i as usize))
        } else {
            let closed1 = if cur.len() > 0 { closed.push(cur) } else { closed };
            if sys[i].exclusive {
                (closed1.push(seq![i as usize]), Seq::empty())
            } else {
                (closed1, seq![i as usize])
            }
        }
    }
}

/// The batches of a system list: maximal runs of consecutive, pairwise
/// non-conflicting systems; an exclusive system forms its own batch.
pub open spec fn spec_batches<F>(sys: Seq<SystemDef<F>>) -> Seq<Seq<usize>> {
    let (closed, cur) = batch_state(sys, sys.len() as int);
    if cur.len() > 0 { closed.push(cur) } else { closed }
}

#[derive(Default)]
pub struct Schedule<F> {
    systems: Vec<SystemDef<F>>,
    /// Precomputed batches (indices into `systems`), rebuilt when systems change.
    batches: Vec<Vec<usize>>,
    dirty: bool,
    /// Per-system last-run duration (µs), for the debug overlay.
    timings: Vec<(&'static str, u32)>,
}

impl<F> Schedule<F> {
    pub closed spec fn systems(self) -> Seq<SystemDef<F>> {
        self.systems@
    }

    /// The batches currently stored (meaningful once rebuilt).
    pub closed spec fn stored_batches(self) -> Seq<Seq<usize>> {
        self.batches@.map_values(|b: Vec<usize>| b@)
    }

    /// Per-system last-run duration (µs), by system index.
    pub closed spec fn timing_list(self) -> Seq<(&'static str, u32)> {
        self.timings@
    }

    /// Whether systems changed since the batches were last built.
    pub closed spec fn is_dirty(self) -> bool {
        self.dirty
    }

    /// The stored batches are those of the current system list.
    pub open spec fn ready(self) -> bool {
        !self.is_dirty() ==> self.stored_batches() == spec_batches(self.systems())
    }

    pub fn new() -> (s: Self)
        ensures
            s.systems() == Seq::<SystemDef<F>>::empty(),
            s.ready(),
    {
        let s = Schedule { systems: Vec::new(), batches: Vec::new(), dirty: false, timings: Vec::new() };
        assert(s.stored_batches() =~= spec_batches(s.systems()));
        s
    }

    /// Registers `sys` after every system already added; returns the
    /// schedule for chaining.
    pub fn add(&mut self, sys: SystemDef<F>) -> (r: &mut Self)
        ensures
            r.systems() == old(self).systems().push(sys),
            r.is_dirty(),
            r.timing_list() == old(self).timing_list(),
            *final(self) == *final(r),
    {
        self.systems.push(sys);
        self.dirty = true;
        self
    }

    fn rebuild(&mut self)
        ensures
            final(self).systems() == old(self).systems(),
            !final(self).is_dirty(),
            final(self).stored_batches() == spec_batches(old(self).systems()),
            final(self).timing_list().len() == old(self).systems().len(),
            forall|i: int| 0 <= i < final(self).timing_list().len() ==> #[trigger] final(self).timing_list()[i] == (old(self).systems()[i].name, 0u32),
    {
        let ghost sys = self.systems@;
        let mut batches: Vec<Vec<usize>> = Vec::new();
        let mut current: Vec<usize> = Vec::new();
        let n = self.systems.len();
        let mut i: usize = 0;
        while i < n
            invariant
                n == sys.len(),
                self.systems@ == sys,
                i <= n,
                batches@.map_values(|b: Vec<usize>| b@) == batch_state(sys, i as int).0,
                current@ == batch_state(sys, i as int).1,
                forall|j: int| 0 <= j < current@.len() ==> current@[j] < i,
            decreases n - i,
        {
            let mut ok = true;
            let m = current.len();
            let mut j: usize = 0;
            while j < m
                invariant
                    m == current@.len(),
                    j <= m,
                    i < n,
                    n == sys.len(),
                    self.systems@ == sys,
                    forall|k: int| 0 <= k < current@.len() ==> current@[k] < i,
                    ok == (forall|k: int| 0 <= k < j ==> !spec_conflicts(sys[#[trigger] current@[k] as int], sys[i as int])),
                decreases m - j,
            {
                if conflicts(&self.systems[current[j]], &self.systems[i]) {
                    ok = false;
                }
                j = j + 1;
            }
            let ghost pre_b = batches@.map_values(|b: Vec<usize>| b@);
            let ghost pre_c = current@;
            if ok && !self.systems[i].exclusive {
                current.push(i);
            } else {
                if current.len() > 0 {
                    let mut taken: Vec<usize> = Vec::new();
                    std::mem::swap(&mut taken, &mut current);
                    batches.push(taken);
                    assert(batches@.map_values(|b: Vec<usize>| b@) =~= pre_b.push(pre_c));
                }
                current.push(i);
                if self.systems[i].exclusive {
                    let ghost pre_b2 = batches@.map_values(|b: Vec<usize>| b@);
                    let mut taken: Vec<usize> = Vec::new();
                    std::mem::swap(&mut taken, &mut current);
                    batches.push(taken);
                    assert(batches@.map_values(|b: Vec<usize>| b@) =~= pre_b2.push(seq![i]));
                }
            }
            proof {
                assert(current@ =~= batch_state(sys, i as int + 1).1);
            }
            i = i + 1;
        }
        if current.len() > 0 {
            let ghost pre_b = batches@.map_values(|b: Vec<usize>| b@);
            batches.push(current);
            assert(batches@.map_values(|b: Vec<usize>| b@) =~= pre_b.push(batch_state(sys, n as int).1));
        } else {
            assert(batches@.map_values(|b: Vec<usize>| b@) =~= spec_batches(sys));
        }
        self.batches = batches;
        let mut timings: Vec<(&'static str, u32)> = Vec::new();
        let mut k: usize = 0;
        while k < n
            invariant
                n == sys.len(),
                self.systems@ == sys,
                k <= n,
                timings@.len() == k,
                forall|t: int| 0 <= t < k ==> #[trigger] timings@[t] == (sys[t].name, 0u32),
            decreases n - k,
        {
            timings.push((self.systems[k].name, 0));
            k = k + 1;
        }
        self.timings = timings;
        self.dirty = false;
    }

    /// Rebuilds the batches if systems were added since the last build.
    pub fn prepare(&mut self)
        requires
            old(self).ready(),
        ensures
            final(self).systems() == old(self).systems(),
            !final(self).is_dirty(),
            final(self).stored_batches() == spec_batches(old(self).systems()),
    {
        if self.dirty {
            self.rebuild();
        }
    }

    /// Number of batches of the current system list.
    pub fn batch_count(&mut self) -> (r: usize)
        requires
            old(self).ready(),
        ensures
            r == spec_batches(old(self).systems()).len(),
            final(self).systems() == old(self).systems(),
            !final(self).is_dirty(),
            final(self).stored_batches() == spec_batches(old(self).systems()),
    {
        self.prepare();
        self.batches.len()
    }

    /// The stored batches.
    pub fn batches(&self) -> (r: &[Vec<usize>])
        ensures
            r@.map_values(|b: Vec<usize>| b@) == self.stored_batches(),
    {
        self.batches.as_slice()
    }

    /// Per-system last-run duration (µs), for the debug overlay.
    pub fn timings(&self) -> (r: &[(&'static str, u32)])
        ensures
            r@ == self.timing_list(),
    {
        self.timings.as_slice()
    }

    /// Records the last-run duration of system `i`.
    pub fn set_timing(&mut self, i: usize, micros: u32)
        requires
            i < old(self).timing_list().len(),
        ensures
            final(self).timing_list() == old(self).timing_list().update(i as int, (old(self).timing_list()[i as int].0, micros)),
            final(self).systems() == old(self).systems(),
            final(self).stored_batches() == old(self).stored_batches(),
            final(self).is_dirty() == old(self).is_dirty(),
    {
        let name = self.timings[i].0;
        self.timings.set(i, (name, micros));
    }

    /// The registered systems, in registration order.
    pub fn system_list(&self) -> (r: &[SystemDef<F>])
        ensures
            r@ == self.systems(),
    {
        self.systems.as_slice()
    }
}


/// A batch can run in parallel: non-empty, no two of its systems conflict,
/// and an exclusive system runs alone.
pub open spec fn batch_ok<F>(sys: Seq<SystemDef<F>>, b: Seq<usize>) -> bool {
    &&& b.len() > 0
    &&& forall|p: int| 0 <= p < b.len() ==> (#[trigger] b[p] as int) < sys.len()
    &&& forall|p: int, q: int| 0 <= p < q < b.len() ==> !spec_conflicts(sys[#[trigger] b[p] as int], sys[#[trigger] b[q] as int])
    &&& forall|p: int| 0 <= p < b.len() && (#[trigger] sys[b[p] as int]).exclusive ==> b.len() == 1
}

/// `0, 1, ..., n - 1`.
pub open spec fn indices_upto(n: int) -> Seq<usize> {
    Seq::new(n as nat, |i: int| i as usize)
}

proof fn lemma_batch_state<F>(sys: Seq<SystemDef<F>>, n: int)
    requires
        0 <= n <= sys.len(),
        sys.len() <= usize::MAX,
    ensures
        ({
            let (closed, cur) = batch_state(sys, n);
            &&& closed.flatten() + cur == indices_upto(n)
            &&& forall|k: int| 0 <= k < closed.len() ==> batch_ok(sys, #[trigger] closed[k])
            &&& forall|p: int| 0 <= p < cur.len() ==> (#[trigger] cur[p] as int) < n
            &&& forall|p: int, q: int| 0 <= p < q < cur.len() ==> !spec_conflicts(sys[#[trigger] cur[p] as int], sys[#[trigger] cur[q] as int])
            &&& forall|p: int| 0 <= p < cur.len() ==> !(#[trigger] sys[cur[p] as int]).exclusive
        }),
    decreases n,
{
    broadcast use Seq::lemma_flatten_push;
    if n <= 0 {
        assert(Seq::<Seq<usize>>::empty().flatten() =~= Seq::<usize>::empty());
        assert(indices_upto(0) =~= Seq::<usize>::empty());
    } else {
        lemma_batch_state(sys, n - 1);
        let (closed, cur) = batch_state(sys, n - 1);
        let i = n - 1;
        let ok = forall|j: int| 0 <= j < cur.len() ==> !spec_conflicts(sys[#[trigger] cur[j] as int], sys[i]);
        assert(indices_upto(n) =~= indices_upto(n - 1).push(i as usize));
        if ok && !sys[i].exclusive {
            let nc = cur.push(i as usize);
            assert(closed.flatten() + nc =~= (closed.flatten() + cur).push(i as usize));
            assert forall|p: int, q: int| 0 <= p < q < nc.len() implies !spec_conflicts(sys[#[trigger] nc[p] as int], sys[#[trigger] nc[q] as int]) by {
                if q == cur.len() {
                    assert(!spec_conflicts(sys[cur[p] as int], sys[i]));
                } else {
                    assert(nc[p] == cur[p] && nc[q] == cur[q]);
                }
            }
        } else {
            let closed1 = if cur.len() > 0 { closed.push(cur) } else { closed };
            if cur.len() > 0 {
                assert(closed1.flatten() == closed.flatten() + cur);
                assert forall|k: int| 0 <= k < closed1.len() implies batch_ok(sys, #[trigger] closed1[k]) by {
                    if k == closed.len() {
                        assert(closed1[k] == cur);
                    } else {
                        assert(closed1[k] == closed[k]);
                    }
                }
            } else {
                assert(closed.flatten() + cur =~= closed.flatten());
            }
            let single = seq![i as usize];
            assert(batch_ok(sys, single));
            if sys[i].exclusive {
                let nclosed = closed1.push(single);
                assert(nclosed.flatten() == closed1.flatten() + single);
                assert(nclosed.flatten() + Seq::<usize>::empty() =~= indices_upto(n));
                assert forall|k: int| 0 <= k < nclosed.len() implies batch_ok(sys, #[trigger] nclosed[k]) by {
                    if k < closed1.len() {
                        assert(nclosed[k] == closed1[k]);
                    }
                }
            } else {
                assert(closed1.flatten() + single =~= indices_upto(n));
            }
        }
    }
}

/// Law: the batches of a schedule list every system exactly once, in
/// registration order; no two systems in one batch conflict; an exclusive
/// system runs alone.
pub proof fn law_batches_partition_in_order<F>(sys: Seq<SystemDef<F>>)
    requires
        sys.len() <= usize::MAX,
    ensures
        spec_batches(sys).flatten() == indices_upto(sys.len() as int),
        forall|k: int| 0 <= k < spec_batches(sys).len() ==> batch_ok(sys, #[trigger] spec_batches(sys)[k]),
{
    broadcast use Seq::lemma_flatten_push;
    lemma_batch_state(sys, sys.len() as int);
    let (closed, cur) = batch_state(sys, sys.len() as int);
    if cur.len() > 0 {
        assert(spec_batches(sys).flatten() == closed.flatten() + cur);
        assert forall|k: int| 0 <= k < spec_batches(sys).len() implies batch_ok(sys, #[trigger] spec_batches(sys)[k]) by {
            if k == closed.len() {
                assert(spec_batches(sys)[k] == cur);
            } else {
                assert(spec_batches(sys)[k] == closed[k]);
            }
        }
    } else {
        assert(closed.flatten() + cur =~= closed.flatten());
    }
}

/// Batch `next` could not have been merged into batch `prev`: its first
/// system is exclusive or conflicts with some system of `prev`.
pub open spec fn starts_new_batch<F>(sys: Seq<SystemDef<F>>, prev: Seq<usize>, next: Seq<usize>) -> bool {
    ||| sys[next[0] as int].exclusive
    ||| exists|p: int| 0 <= p < prev.len() && spec_conflicts(sys[#[trigger] prev[p] as int], sys[next[0] as int])
}

proof fn lemma_batch_state_maximal<F>(sys: Seq<SystemDef<F>>, n: int)
    requires
        0 <= n <= sys.len(),
        sys.len() <= usize::MAX,
    ensures
        ({
            let (closed, cur) = batch_state(sys, n);
            &&& forall|k: int| 1 <= k < closed.len() ==> starts_new_batch(sys, closed[k - 1], #[trigger] closed[k])
            &&& cur.len() > 0 && closed.len() > 0 ==> starts_new_batch(sys, closed.last(), cur)
            &&& cur.len() == 0 && closed.len() > 0 ==> closed.last().len() == 1 && sys[closed.last()[0] as int].exclusive
        }),
    decreases n,
{
    if n > 0 {
        lemma_batch_state_maximal(sys, n - 1);
        lemma_batch_state(sys, n - 1);
        let (closed, cur) = batch_state(sys, n - 1);
        let i = n - 1;
        let ok = forall|j: int| 0 <= j < cur.len() ==> !spec_conflicts(sys[#[trigger] cur[j] as int], sys[i]);
        if ok && !sys[i].exclusive {
            let nc = cur.push(i as usize);
            if cur.len() == 0 && closed.len() > 0 {
                assert(spec_conflicts(sys[closed.last()[0] as int], sys[i]));
                assert(starts_new_batch(sys, closed.last(), nc));
            }
        } else {
            let closed1 = if cur.len() > 0 { closed.push(cur) } else { closed };
            assert forall|k: int| 1 <= k < closed1.len() implies starts_new_batch(sys, closed1[k - 1], #[trigger] closed1[k]) by {
                if k < closed.len() {
                    assert(closed1[k - 1] == closed[k - 1] && closed1[k] == closed[k]);
                } else {
                    assert(closed1[k] == cur && closed1[k - 1] == closed.last());
                }
            }
            let single = seq![i as usize];
            if sys[i].exclusive {
                let nclosed = closed1.push(single);
                assert forall|k: int| 1 <= k < nclosed.len() implies starts_new_batch(sys, nclosed[k - 1], #[trigger] nclosed[k]) by {
                    if k < closed1.len() {
                        assert(nclosed[k - 1] == closed1[k - 1] && nclosed[k] == closed1[k]);
                    } else {
                        assert(nclosed[k] == single);
                    }
                }
            } else {
                assert(!ok);
                let j = choose|j: int| 0 <= j < cur.len() && spec_conflicts(sys[#[trigger] cur[j] as int], sys[i]);
                assert(closed1.last() == cur);
                assert(starts_new_batch(sys, closed1.last(), single));
            }
        }
    }
}

/// Law (maximal batches): consecutive systems share a batch whenever they
/// can. Each batch after the first begins with a system that could not have
/// joined the batch before it: the system is exclusive, or it conflicts with
/// some system of that batch (a system after an exclusive one always does).
pub proof fn law_batches_are_maximal<F>(sys: Seq<SystemDef<F>>)
    requires
        sys.len() <= usize::MAX,
    ensures
        forall|k: int| 1 <= k < spec_batches(sys).len() ==> {
            let prev = spec_batches(sys)[k - 1];
            let first = #[trigger] spec_batches(sys)[k][0];
            ||| sys[first as int].exclusive
            ||| exists|p: int| 0 <= p < prev.len() && spec_conflicts(sys[#[trigger] prev[p] as int], sys[first as int])
        },
{
    lemma_batch_state_maximal(sys, sys.len() as int);
    let (closed, cur) = batch_state(sys, sys.len() as int);
    let b = spec_batches(sys);
    assert forall|k: int| 1 <= k < b.len() implies starts_new_batch(sys, b[k - 1], #[trigger] b[k]) by {
        if cur.len() > 0 {
            if k < closed.len() {
                assert(b[k - 1] == closed[k - 1] && b[k] == closed[k]);
            } else {
                assert(b[k] == cur && b[k - 1] == closed.last());
            }
        } else {
            assert(b[k - 1] == closed[k - 1] && b[k] == closed[k]);
        }
    }
}
} // verus!
