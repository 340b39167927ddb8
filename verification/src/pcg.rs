//! PCG32 random streams. All simulation randomness flows through named
//! streams so that e.g. an extra loot roll never perturbs level layout.

use vstd::prelude::*;
use crate::hash::{fnv1a64, spec_fnv1a64, bytes_eq};
use vstd::string::StringSliceAdditionalSpecFns;

verus! {

pub const PCG_MUL: u64 = 6364136223846793005;

/// Increment used by a generator created for stream `stream` (always odd).
pub open spec fn stream_inc(stream: u64) -> u64 {
    (stream << 1u64) | 1u64
}

pub open spec fn wrap_mul64(x: u64, y: u64) -> u64 {
    ((x as nat * y as nat) % 0x1_0000_0000_0000_0000nat) as u64
}

pub open spec fn wrap_add64(x: u64, y: u64) -> u64 {
    if x + y > u64::MAX {
        (x + y - 0x1_0000_0000_0000_0000int) as u64
    } else {
        (x + y) as u64
    }
}

/// The LCG state transition of PCG-XSH-RR 64/32.
pub open spec fn pcg_step(state: u64, inc: u64) -> u64 {
    wrap_add64(wrap_mul64(state, PCG_MUL), inc)
}

/// 32-bit rotate right by `r` (taken mod 32).
pub open spec fn rotr32(x: u32, r: u32) -> u32 {
    let r = r % 32;
    if r == 0 {
        x
    } else {
        (x >> r) | (x << ((32 - r) as u32))
    }
}

/// The 32-bit output drawn from (pre-transition) state `old`.
pub open spec fn pcg_output(old: u64) -> u32 {
    rotr32((((old >> 18u64) ^ old) >> 27u64) as u32, (old >> 59u64) as u32)
}

/// Two 32-bit draws from `state`, high word first.
pub open spec fn draw_u64_with(state: u64, inc: u64) -> u64 {
    ((pcg_output(state) as u64) << 32u64) | (pcg_output(pcg_step(state, inc)) as u64)
}

/// State of `Pcg32::new(seed, stream)`.
pub open spec fn seeded_state(seed: u64, stream: u64) -> u64 {
    let inc = stream_inc(stream);
    pcg_step(wrap_add64(pcg_step(0, inc), seed), inc)
}

/// Lemire's rejection threshold `2^32 mod n` (for n > 0).
pub open spec fn lemire_threshold(n: u32) -> nat {
    ((0x1_0000_0000nat - n as nat) as nat) % (n as nat)
}

/// Unbiased draw in `[0, n)`: draws until the low word of `x * n` reaches the
/// threshold, giving up after `budget` redraws. Yields the final state and
/// the high word of the accepted product.
pub open spec fn lemire_draw(state: u64, inc: u64, n: u32, budget: nat) -> (u64, u32)
    decreases budget,
{
    let m = pcg_output(state) as nat * n as nat;
    if m % 0x1_0000_0000nat >= lemire_threshold(n) || budget == 0 {
        (pcg_step(state, inc), (m / 0x1_0000_0000nat) as u32)
    } else {
        lemire_draw(pcg_step(state, inc), inc, n, (budget - 1) as nat)
    }
}

/// Redraw budget of `range_u32`: with the first draw, 2^64 draws in all,
/// one full period of the state map.
pub open spec fn lemire_budget() -> nat {
    u64::MAX as nat
}

/// Fisher–Yates from index `i` down to 1 over sequence `s`.
pub open spec fn shuffle_from<T>(s: Seq<T>, state: u64, inc: u64, i: int) -> (Seq<T>, u64)
    decreases i,
{
    if i < 1 {
        (s, state)
    } else {
        let (st2, j) = lemire_draw(state, inc, (i + 1) as u32, lemire_budget());
        shuffle_from(s.update(i, s[j as int]).update(j as int, s[i]), st2, inc, i - 1)
    }
}

/// PCG-XSH-RR 64/32 (O'Neill). Deterministic, fast, serializable.
#[derive(Clone, Copy, Debug, PartialEq, Eq, Structural)]
pub struct Pcg32 {
    state: u64,
    inc: u64,
}

impl Pcg32 {
    /// LCG state.
    pub closed spec fn st(self) -> u64 {
        self.state
    }

    /// Stream increment.
    pub closed spec fn incr(self) -> u64 {
        self.inc
    }

    pub fn new(seed: u64, stream: u64) -> (r: Self)
        ensures
            r.st() == seeded_state(seed, stream),
            r.incr() == stream_inc(stream),
    {
        let mut rng = Pcg32 { state: 0, inc: (stream << 1u64) | 1u64 };
        rng.next_u32();
        rng.state = rng.state.wrapping_add(seed);
        rng.next_u32();
        rng
    }

    /// Rebuilds a generator from its raw state and increment.
    pub fn from_parts(state: u64, inc: u64) -> (r: Self)
        ensures
            r.st() == state,
            r.incr() == inc,
    {
        Pcg32 { state, inc }
    }

    /// The raw (state, increment) pair.
    pub fn parts(&self) -> (r: (u64, u64))
        ensures
            r == (self.st(), self.incr()),
    {
        (self.state, self.inc)
    }

    pub fn next_u32(&mut self) -> (r: u32)
        ensures
            r == pcg_output(old(self).st()),
            final(self).st() == pcg_step(old(self).st(), old(self).incr()),
            final(self).incr() == old(self).incr(),
    {
        let old = self.state;
        self.state = old.wrapping_mul(PCG_MUL).wrapping_add(self.inc);
        let xorshifted = (((old >> 18u64) ^ old) >> 27u64) as u32;
        let rot = (old >> 59u64) as u32;
        proof {
            assert(old >> 59u64 < 32) by (bit_vector);
        }
        if rot == 0 {
            xorshifted
        } else {
            (xorshifted >> rot) | (xorshifted << (32 - rot))
        }
    }

    pub fn next_u64(&mut self) -> (r: u64)
        ensures
            r == draw_u64_with(old(self).st(), old(self).incr()),
            final(self).st() == pcg_step(pcg_step(old(self).st(), old(self).incr()), old(self).incr()),
            final(self).incr() == old(self).incr(),
    {
        let hi = self.next_u32();
        let lo = self.next_u32();
        ((hi as u64) << 32u64) | lo as u64
    }

    /// Uniform in `[0, n)` without modulo bias (Lemire).
    ///
    /// The state map is a bijection on 2^64 states, so a run of 2^64 draws
    /// revisits its starting state; the redraw loop therefore stops after
    /// that many draws, which changes nothing on any input where the
    /// rejection loop ends at all.
    pub fn range_u32(&mut self, n: u32) -> (r: u32)
        requires
            n > 0,
        ensures
            (final(self).st(), r) == lemire_draw(old(self).st(), old(self).incr(), n, lemire_budget()),
            final(self).incr() == old(self).incr(),
            r < n,
    {
        let ghost st0 = self.state;
        let ghost inc = self.inc;
        let ghost mut prev = self.state;
        let mut x = self.next_u32();
        let mut m: u64 = Self::mul_wide(x, n);
        let mut l = Self::low_word(m);
        let mut tries: u64 = 0;
        if l < n {
            // two's-complement negation: 2^32 - n
            let t = 0u32.wrapping_sub(n) % n;
            assert(t == lemire_threshold(n));
            while l < t && tries < u64::MAX
                invariant
                    lemire_draw(st0, inc, n, lemire_budget()) == lemire_draw(
                        prev,
                        inc,
                        n,
                        (u64::MAX - tries) as nat,
                    ),
                    x == pcg_output(prev),
                    self.st() == pcg_step(prev, inc),
                    self.incr() == inc,
                    m == x as nat * n as nat,
                    l == m % 0x1_0000_0000,
                    t == lemire_threshold(n),
                    n > 0,
                decreases u64::MAX - tries,
            {
                proof {
                    prev = self.state;
                }
                x = self.next_u32();
                m = Self::mul_wide(x, n);
                l = Self::low_word(m);
                tries = tries + 1;
            }
        } else {
            proof {
                assert(lemire_threshold(n) < n);
            }
        }
        Self::high_word(x, n, m)
    }

    fn mul_wide(x: u32, n: u32) -> (m: u64)
        ensures
            m == x as nat * n as nat,
    {
        proof {
            assert(x as nat * n as nat <= 0xffff_ffffnat * 0xffff_ffffnat) by (nonlinear_arith)
                requires x <= 0xffff_ffffu32, n <= 0xffff_ffffu32;
        }
        (x as u64) * (n as u64)
    }

    fn low_word(m: u64) -> (l: u32)
        ensures
            l == m % 0x1_0000_0000,
    {
        proof {
            assert(m as u32 == m % 0x1_0000_0000) by (bit_vector);
        }
        m as u32
    }

    fn high_word(x: u32, n: u32, m: u64) -> (r: u32)
        requires
            m == x as nat * n as nat,
            n > 0,
        ensures
            r == m / 0x1_0000_0000,
            r < n,
    {
        proof {
            assert(m >> 32u64 == m / 0x1_0000_0000) by (bit_vector);
            assert((x as nat * n as nat) / 0x1_0000_0000nat < n as nat) by (nonlinear_arith)
                requires x < 0x1_0000_0000nat, n > 0;
        }
        (m >> 32u64) as u32
    }

    /// Uniform in `[lo, hi)`.
    pub fn range_i32(&mut self, lo: i32, hi: i32) -> (r: i32)
        requires
            lo < hi,
            hi - lo <= i32::MAX,
        ensures
            (final(self).st(), (r - lo) as u32) == lemire_draw(
                old(self).st(),
                old(self).incr(),
                (hi - lo) as u32,
                lemire_budget(),
            ),
            final(self).incr() == old(self).incr(),
            lo <= r < hi,
    {
        let d = self.range_u32((hi - lo) as u32);
        lo + d as i32
    }

    /// Fisher–Yates shuffle driven by this generator.
    pub fn shuffle<T>(&mut self, slice: &mut [T])
        requires
            old(slice)@.len() <= u32::MAX,
        ensures
            (final(slice)@, final(self).st()) == shuffle_from(
                old(slice)@,
                old(self).st(),
                old(self).incr(),
                old(slice)@.len() - 1,
            ),
            final(self).incr() == old(self).incr(),
    {
        let len = slice.len();
        if len == 0 {
            return;
        }
        let mut i: usize = len - 1;
        while i >= 1
            invariant
                slice@.len() == len,
                len <= u32::MAX,
                i < len,
                self.incr() == old(self).incr(),
                shuffle_from(old(slice)@, old(self).st(), old(self).incr(), len - 1)
                    == shuffle_from(slice@, self.st(), self.incr(), i as int),
            decreases i,
        {
            let ghost s = slice@;
            let j = self.range_u32(i as u32 + 1) as usize;
            slice_swap(slice, i, j);
            assert(slice@ =~= s.update(i as int, s[j as int]).update(j as int, s[i as int]));
            i = i - 1;
        }
    }
}

/// `<[T]>::swap`: exchanges the elements at `i` and `j`.
#[verifier::external_body]
fn slice_swap<T>(s: &mut [T], i: usize, j: usize)
    requires
        i < old(s)@.len(),
        j < old(s)@.len(),
    ensures
        final(s)@ == old(s)@.update(i as int, old(s)@[j as int]).update(j as int, old(s)@[i as int]),
{
    s.swap(i, j);
}

/// Seed-derivation constant used by [`PcgStreams::fork`].
pub const FORK_XOR: u64 = 0x9E3779B97F4A7C15;

/// One named stream.
#[derive(Clone, Debug)]
pub struct NamedStream {
    pub name: String,
    pub rng: Pcg32,
}

/// Named, independently-seeded streams. The stream id is derived from the
/// name's FNV hash, so stream identity survives reordering of creation.
#[derive(Clone, Debug)]
pub struct PcgStreams {
    master_seed: u64,
    streams: Vec<NamedStream>,
}

impl PcgStreams {
    /// Stream names as UTF-8 bytes, in storage order.
    pub closed spec fn keys(self) -> Seq<Seq<u8>> {
        self.streams@.map_values(|e: NamedStream| vstd::utf8::encode_utf8(e.name@))
    }

    /// Names are stored once each.
    pub closed spec fn wf(self) -> bool {
        forall|i: int, j: int|
            0 <= i < self.keys().len() && 0 <= j < self.keys().len() && i != j
                ==> self.keys()[i] != self.keys()[j]
    }

    pub closed spec fn master(self) -> u64 {
        self.master_seed
    }

    /// Whether stream `k` has been created.
    pub closed spec fn has_stream(self, k: Seq<u8>) -> bool {
        self.keys().contains(k)
    }

    /// The (state, increment) that stream `k` currently continues from: its
    /// stored generator, or a fresh one seeded from the master seed and the
    /// name's FNV hash.
    pub closed spec fn stream_of(self, k: Seq<u8>) -> (u64, u64) {
        if self.has_stream(k) {
            let i = choose|i: int| 0 <= i < self.keys().len() && self.keys()[i] == k;
            (self.streams@[i].rng.st(), self.streams@[i].rng.incr())
        } else {
            (seeded_state(self.master_seed, spec_fnv1a64(k)), stream_inc(spec_fnv1a64(k)))
        }
    }

    /// With unique names, the stream stored at index `i` is the one named
    /// `keys()[i]`.
    proof fn lemma_stream_at(self, i: int)
        requires
            self.wf(),
            0 <= i < self.keys().len(),
        ensures
            self.has_stream(self.keys()[i]),
            self.stream_of(self.keys()[i]) == (self.streams@[i].rng.st(), self.streams@[i].rng.incr()),
    {
        let k = self.keys()[i];
        assert(self.keys()[i] == k);
        let c = choose|c: int| 0 <= c < self.keys().len() && self.keys()[c] == k;
        assert(c == i);
    }

    pub fn new(master_seed: u64) -> (r: Self)
        ensures
            r.wf(),
            r.master() == master_seed,
            forall|k: Seq<u8>| !r.has_stream(k),
    {
        PcgStreams { master_seed, streams: Vec::new() }
    }

    pub fn master_seed(&self) -> (r: u64)
        ensures
            r == self.master(),
    {
        self.master_seed
    }

    fn find(&self, key: &[u8]) -> (r: Option<usize>)
        requires
            self.wf(),
        ensures
            match r {
                Some(i) => i < self.streams@.len() && self.keys()[i as int] == key@,
                None => !self.has_stream(key@),
            },
    {
        let n = self.streams.len();
        let mut i: usize = 0;
        while i < n
            invariant
                n == self.streams@.len(),
                i <= n,
                self.keys().len() == n,
                forall|j: int| 0 <= j < i ==> self.keys()[j] != key@,
            decreases n - i,
        {
            let found = bytes_eq(self.streams[i].name.as_str().as_bytes(), key);
            assert(self.keys()[i as int] == vstd::utf8::encode_utf8(self.streams@[i as int].name@));
            if found {
                return Some(i);
            }
            i = i + 1;
        }
        None
    }

    /// The generator for `name`, created on first use.
    pub fn get(&mut self, name: &str) -> (r: &mut Pcg32)
        requires
            old(self).wf(),
        ensures
            final(self).wf(),
            final(self).master() == old(self).master(),
            (r.st(), r.incr()) == old(self).stream_of(name.spec_bytes()),
            final(self).has_stream(name.spec_bytes()),
            final(self).stream_of(name.spec_bytes()) == (final(r).st(), final(r).incr()),
            forall|k: Seq<u8>| k != name.spec_bytes() ==> final(self).stream_of(k) == old(self).stream_of(k)
                && (final(self).has_stream(k) == old(self).has_stream(k)),
    {
        let key = name.as_bytes();
        let ghost k = name.spec_bytes();
        let idx = match self.find(key) {
            Some(i) => i,
            None => {
                let stream_id = fnv1a64(key);
                let rng = Pcg32::new(self.master_seed, stream_id);
                let ghost pre = *self;
                let owned = name.to_owned();
                self.streams.push(NamedStream { name: owned, rng });
                proof {
                    assert(self.keys() =~= pre.keys().push(k));
                    assert forall|k2: Seq<u8>| k2 != k implies self.stream_of(k2) == pre.stream_of(k2)
                        && self.has_stream(k2) == pre.has_stream(k2) by {
                        if pre.has_stream(k2) {
                            let i2 = choose|i: int| 0 <= i < pre.keys().len() && pre.keys()[i] == k2;
                            pre.lemma_stream_at(i2);
                            self.lemma_stream_at(i2);
                        } else {
                            assert(!self.keys().contains(k2));
                        }
                    }
                }
                self.streams.len() - 1
            },
        };
        proof {
            self.lemma_stream_at(idx as int);
        }
        self.entry_mut(idx)
    }

    fn entry_mut(&mut self, idx: usize) -> (r: &mut Pcg32)
        requires
            old(self).wf(),
            idx < old(self).streams@.len(),
        ensures
            final(self).keys() == old(self).keys(),
            final(self).master() == old(self).master(),
            *r == old(self).streams@[idx as int].rng,
            forall|i: int| 0 <= i < old(self).streams@.len() && i != idx ==> #[trigger] final(self).streams@[i] == old(self).streams@[i],
            final(self).streams@[idx as int].rng == *final(r),
    {
        &mut self.streams[idx].rng
    }

    /// Fork a child generator (per-room, per-entity) at the cost of exactly
    /// one 64-bit draw from the parent stream.
    pub fn fork(&mut self, name: &str) -> (r: Pcg32)
        requires
            old(self).wf(),
        ensures
            final(self).wf(),
            final(self).master() == old(self).master(),
            ({
                let (s0, inc) = old(self).stream_of(name.spec_bytes());
                let seed = draw_u64_with(s0, inc);
                &&& r.st() == seeded_state(seed, seed ^ FORK_XOR)
                &&& r.incr() == stream_inc(seed ^ FORK_XOR)
                &&& final(self).stream_of(name.spec_bytes()) == (pcg_step(pcg_step(s0, inc), inc), inc)
            }),
            final(self).has_stream(name.spec_bytes()),
            forall|k: Seq<u8>| k != name.spec_bytes() ==> final(self).stream_of(k) == old(self).stream_of(k)
                && (final(self).has_stream(k) == old(self).has_stream(k)),
    {
        let s = self.get(name);
        let seed = s.next_u64();
        Pcg32::new(seed, seed ^ FORK_XOR)
    }
}

/// An accepted Lemire draw lies in `[0, n)`.
pub proof fn lemma_lemire_draw_below(state: u64, inc: u64, n: u32, budget: nat)
    requires
        n > 0,
    ensures
        lemire_draw(state, inc, n, budget).1 < n,
    decreases budget,
{
    let out = pcg_output(state) as nat;
    let m = out * n as nat;
    assert(m / 0x1_0000_0000nat < n as nat) by (nonlinear_arith)
        requires
            m == out * n as nat,
            out < 0x1_0000_0000nat,
            n as nat > 0,
    {
        assert(out * (n as nat) < 0x1_0000_0000nat * (n as nat));
    }
    if !(m % 0x1_0000_0000nat >= lemire_threshold(n) || budget == 0) {
        lemma_lemire_draw_below(pcg_step(state, inc), inc, n, (budget - 1) as nat);
    }
}

/// Swapping two positions keeps the multiset of items.
proof fn lemma_swap_to_multiset<T>(s: Seq<T>, i: int, j: int)
    requires
        0 <= i < s.len(),
        0 <= j < s.len(),
    ensures
        s.update(i, s[j]).update(j, s[i]).to_multiset() == s.to_multiset(),
{
    broadcast use vstd::seq_lib::to_multiset_update, vstd::multiset::group_multiset_axioms, vstd::seq_lib::to_multiset_contains;
    let m = s.to_multiset();
    let t1 = s.update(i, s[j]);
    let t = t1.update(j, s[i]);
    assert(s.contains(s[i]));
    assert(m.count(s[i]) > 0);
    assert(t1.to_multiset() == m.insert(s[j]).remove(s[i]));
    assert(t1[j] == s[j]);
    assert(t.to_multiset() == t1.to_multiset().insert(s[i]).remove(s[j]));
    assert forall|x: T| #[trigger] t.to_multiset().count(x) == m.count(x) by {
        let m1 = m.insert(s[j]);
        let m2 = m1.remove(s[i]);
        let m3 = m2.insert(s[i]);
        assert(m1.count(s[i]) > 0);
        assert(m3.count(s[j]) > 0);
    }
    assert(t.to_multiset() =~= m);
}

/// Law (permutation): a Fisher–Yates pass only rearranges the sequence; the
/// result holds the same items, each as often, at the same length.
pub proof fn law_shuffle_permutes<T>(s: Seq<T>, state: u64, inc: u64, i: int)
    requires
        i < s.len(),
        i < u32::MAX,
    ensures
        shuffle_from(s, state, inc, i).0.len() == s.len(),
        shuffle_from(s, state, inc, i).0.to_multiset() == s.to_multiset(),
    decreases i,
{
    if i >= 1 {
        let (st2, j) = lemire_draw(state, inc, (i + 1) as u32, lemire_budget());
        lemma_lemire_draw_below(state, inc, (i + 1) as u32, lemire_budget());
        lemma_swap_to_multiset(s, i, j as int);
        let t = s.update(i, s[j as int]).update(j as int, s[i]);
        law_shuffle_permutes(t, st2, inc, i - 1);
    }
}


/// A Fisher–Yates pass down from index `i` leaves positions above `i`
/// untouched.
proof fn lemma_shuffle_keeps_above<T>(s: Seq<T>, state: u64, inc: u64, i: int, p: int)
    requires
        i < s.len(),
        i < u32::MAX,
        i < p < s.len(),
    ensures
        shuffle_from(s, state, inc, i).0[p] == s[p],
    decreases i,
{
    if i >= 1 {
        let (st2, j) = lemire_draw(state, inc, (i + 1) as u32, lemire_budget());
        lemma_lemire_draw_below(state, inc, (i + 1) as u32, lemire_budget());
        let t = s.update(i, s[j as int]).update(j as int, s[i]);
        lemma_shuffle_keeps_above(t, st2, inc, i - 1, p);
    }
}

/// Law (Fisher–Yates draw): in a shuffle of `n` items, the step at each
/// position `i` (from `n - 1` down to 1) draws `range_u32(i + 1)` from the
/// generator's state at that step: the item that ends at position `i` is the
/// one at the drawn index, which may be any of `0..=i`, position `i` itself
/// included, and the pass goes on below `i` from the state that draw leaves.
/// For the whole slice (`i = n - 1`) the last slot thus takes the item at the
/// index `range_u32(n)` returns, and so can keep its own item.
pub proof fn law_shuffle_step_takes_range_draw<T>(s: Seq<T>, state: u64, inc: u64, i: int)
    requires
        1 <= i < s.len(),
        s.len() <= u32::MAX,
    ensures
        ({
            let (st2, j) = lemire_draw(state, inc, (i + 1) as u32, lemire_budget());
            &&& j <= i
            &&& shuffle_from(s, state, inc, i).0[i] == s[j as int]
            &&& shuffle_from(s, state, inc, i) == shuffle_from(
                s.update(i, s[j as int]).update(j as int, s[i]),
                st2,
                inc,
                i - 1,
            )
        }),
{
    lemma_lemire_draw_below(state, inc, (i + 1) as u32, lemire_budget());
    let (st2, j) = lemire_draw(state, inc, (i + 1) as u32, lemire_budget());
    let t = s.update(i, s[j as int]).update(j as int, s[i]);
    lemma_shuffle_keeps_above(t, st2, inc, i - 1, i);
    if j as int == i {
        assert(t[i] == s[i]);
    } else {
        assert(t[i] == s[j as int]);
    }
}
} // verus!
