//! Archetype ECS. Entities are generational IDs; components live in
//! contiguous per-archetype columns, one column per component id, rows
//! aligned across columns.
//!
//! Component values are of one type `C` chosen by the game (typically an enum
//! over its component kinds); a component is named by a `ComponentId`.

use vstd::prelude::*;
use std::collections::HashMap;

verus! {

/// Names a component kind (or a resource kind).
pub type ComponentId = u64;

/// Generational entity handle.
#[derive(Clone, Copy, PartialEq, Eq, Hash, Debug, Structural)]
pub struct Entity {
    pub index: u32,
    pub gen: u32,
}

impl Entity {
    /// The handle that never names a live entity slot it was not given for.
    pub fn dead() -> (e: Entity)
        ensures
            e.index == u32::MAX,
            e.gen == u32::MAX,
    {
        Entity { index: u32::MAX, gen: u32::MAX }
    }

    pub open spec fn spec_to_bits(self) -> u64 {
        ((self.gen as u64) << 32u64) | (self.index as u64)
    }

    /// Packs the handle as `gen << 32 | index`.
    pub fn to_bits(self) -> (b: u64)
        ensures
            b == self.spec_to_bits(),
    {
        ((self.gen as u64) << 32u64) | (self.index as u64)
    }

    /// Unpacks a handle packed by [`Entity::to_bits`].
    pub fn from_bits(b: u64) -> (e: Entity)
        ensures
            e.index == b % 0x1_0000_0000,
            e.gen == b / 0x1_0000_0000,
    {
        proof {
            assert(b as u32 == b % 0x1_0000_0000) by (bit_vector);
            assert((b >> 32u64) as u32 == b / 0x1_0000_0000) by (bit_vector);
        }
        Entity { index: b as u32, gen: (b >> 32u64) as u32 }
    }
}

/// Law: unpacking a packed handle gives the handle back.
pub proof fn law_entity_bits_roundtrip(e: Entity)
    ensures
        e.spec_to_bits() % 0x1_0000_0000 == e.index,
        e.spec_to_bits() / 0x1_0000_0000 == e.gen,
{
    let g = e.gen;
    let i = e.index;
    assert((((g as u64) << 32u64) | (i as u64)) % 0x1_0000_0000 == i) by (bit_vector);
    assert((((g as u64) << 32u64) | (i as u64)) / 0x1_0000_0000 == g) by (bit_vector);
}

/// Strictly increasing: a signature lists each component id once, in order.
pub open spec fn sorted_strict(s: Seq<u64>) -> bool {
    forall|i: int, j: int| 0 <= i < j < s.len() ==> s[i] < s[j]
}

/// Position of `c` in signature `s`.
pub open spec fn sig_pos(s: Seq<u64>, c: u64) -> int {
    choose|k: int| 0 <= k < s.len() && s[k] == c
}

/// Components of a row: id `s[k]` holds `vals[k]`.
pub open spec fn zip_map<C>(s: Seq<u64>, vals: Seq<C>) -> Map<u64, C> {
    Map::new(|c: u64| s.contains(c), |c: u64| vals[sig_pos(s, c)])
}

/// `Vec::swap_remove` on sequences.
pub open spec fn swap_remove_seq<T>(s: Seq<T>, r: int) -> Seq<T> {
    s.update(r, s.last()).drop_last()
}

pub proof fn lemma_sig_pos(s: Seq<u64>, k: int)
    requires
        sorted_strict(s),
        0 <= k < s.len(),
    ensures
        sig_pos(s, s[k]) == k,
        s.contains(s[k]),
{
    assert(s[k] == s[k]);
    let p = sig_pos(s, s[k]);
    if p < k {
        assert(s[p] < s[k]);
    } else if p > k {
        assert(s[k] < s[p]);
    }
}

/// One archetype: every entity in it has exactly the components in `sig`.
pub struct Archetype<C> {
    sig: Vec<u64>,
    cols: Vec<Vec<C>>,
    entities: Vec<Entity>,
}

impl<C> Archetype<C> {
    pub closed spec fn signature(self) -> Seq<u64> {
        self.sig@
    }

    pub closed spec fn ents(self) -> Seq<Entity> {
        self.entities@
    }

    /// Column `k` (the values of component `signature()[k]`).
    pub closed spec fn column(self, k: int) -> Seq<C> {
        self.cols@[k]@
    }

    pub closed spec fn cell(self, r: int, k: int) -> C {
        self.cols@[k]@[r]
    }

    /// Row `r`, aligned with the signature.
    pub closed spec fn row(self, r: int) -> Seq<C> {
        Seq::new(self.sig@.len(), |k: int| self.cols@[k]@[r])
    }

    pub closed spec fn rows(self) -> Seq<Seq<C>> {
        Seq::new(self.entities@.len(), |r: int| self.row(r))
    }

    /// Components of the entity at row `r`.
    pub open spec fn row_map(self, r: int) -> Map<u64, C> {
        zip_map(self.signature(), self.row(r))
    }

    pub closed spec fn wf(self) -> bool {
        &&& sorted_strict(self.sig@)
        &&& self.cols@.len() == self.sig@.len()
        &&& forall|k: int| 0 <= k < self.cols@.len() ==> #[trigger] self.cols@[k]@.len() == self.entities@.len()
    }

    fn new_empty(sig: Vec<u64>) -> (a: Self)
        requires
            sorted_strict(sig@),
        ensures
            a.wf(),
            a.signature() == sig@,
            a.ents() == Seq::<Entity>::empty(),
    {
        let n = sig.len();
        let mut cols: Vec<Vec<C>> = Vec::new();
        let mut i: usize = 0;
        while i < n
            invariant
                i <= n,
                cols@.len() == i,
                forall|k: int| 0 <= k < i ==> #[trigger] cols@[k]@.len() == 0,
            decreases n - i,
        {
            cols.push(Vec::new());
            i = i + 1;
        }
        Archetype { sig, cols, entities: Vec::new() }
    }

    fn col_index(&self, c: u64) -> (r: Option<usize>)
        requires
            self.wf(),
        ensures
            match r {
                Some(k) => k < self.signature().len() && self.signature()[k as int] == c
                    && sig_pos(self.signature(), c) == k,
                None => !self.signature().contains(c),
            },
    {
        let n = self.sig.len();
        let mut k: usize = 0;
        while k < n
            invariant
                n == self.sig@.len(),
                k <= n,
                self.wf(),
                forall|j: int| 0 <= j < k ==> self.sig@[j] != c,
            decreases n - k,
        {
            if self.sig[k] == c {
                proof {
                    lemma_sig_pos(self.sig@, k as int);
                }
                return Some(k);
            }
            k = k + 1;
        }
        None
    }

    pub fn contains(&self, c: u64) -> (r: bool)
        requires
            self.wf(),
        ensures
            r == self.signature().contains(c),
    {
        self.col_index(c).is_some()
    }

    pub fn len(&self) -> (r: usize)
        ensures
            r == self.ents().len(),
    {
        self.entities.len()
    }

    pub fn is_empty(&self) -> (r: bool)
        ensures
            r == (self.ents().len() == 0),
    {
        self.entities.len() == 0
    }

    pub fn entities(&self) -> (r: &[Entity])
        ensures
            r@ == self.ents(),
    {
        self.entities.as_slice()
    }

    /// Appends `v` to the column of component `c`.
    pub fn push_value(&mut self, c: u64, v: C)
        requires
            old(self).wf(),
            old(self).signature().contains(c),
        ensures
            final(self).signature() == old(self).signature(),
            final(self).ents() == old(self).ents(),
            final(self).column(sig_pos(old(self).signature(), c)) == old(self).column(
                sig_pos(old(self).signature(), c),
            ).push(v),
            forall|k: int|
                0 <= k < old(self).signature().len() && k != sig_pos(old(self).signature(), c)
                    ==> #[trigger] final(self).column(k) == old(self).column(k),
    {
        let k = self.col_index(c).unwrap();
        self.cols[k].push(v);
    }

    /// Appends entity `e` with the row `vals` (aligned with the signature).
    fn push_row(&mut self, e: Entity, vals: Vec<C>)
        requires
            old(self).wf(),
            vals@.len() == old(self).signature().len(),
        ensures
            final(self).wf(),
            final(self).signature() == old(self).signature(),
            final(self).ents() == old(self).ents().push(e),
            final(self).rows() == old(self).rows().push(vals@),
    {
        let ghost pre = *self;
        let ghost v0 = vals@;
        let mut vals = vals;
        let n = self.sig.len();
        let mut k: usize = n;
        while k > 0
            invariant
                k <= n,
                n == self.sig@.len(),
                self.sig@ == pre.sig@,
                self.entities@ == pre.entities@,
                self.cols@.len() == n,
                v0.len() == n,
                vals@ == v0.take(k as int),
                forall|j: int| 0 <= j < k ==> #[trigger] self.cols@[j] == pre.cols@[j],
                forall|j: int| k <= j < n ==> #[trigger] self.cols@[j]@ == pre.cols@[j]@.push(v0[j]),
            decreases k,
        {
            let v = vals.pop().unwrap();
            k = k - 1;
            self.cols[k].push(v);
            assert(vals@ =~= v0.take(k as int));
        }
        self.entities.push(e);
        proof {
            assert(self.wf());
            let rows_new = self.rows();
                        assert forall|r: int| 0 <= r < rows_new.len() implies #[trigger] rows_new[r] =~= pre.rows().push(v0)[r] by {
                if r < pre.entities@.len() {
                    assert(pre.rows()[r] == pre.row(r));
                }
            }
            assert(rows_new =~= pre.rows().push(v0));
        }
    }

    /// Removes row `r` by swapping the last row into its place; returns the
    /// removed row (aligned with the signature).
    fn take_row(&mut self, r: usize) -> (vals: Vec<C>)
        requires
            old(self).wf(),
            r < old(self).ents().len(),
        ensures
            final(self).wf(),
            final(self).signature() == old(self).signature(),
            final(self).ents() == swap_remove_seq(old(self).ents(), r as int),
            final(self).rows() == swap_remove_seq(old(self).rows(), r as int),
            vals@ == old(self).row(r as int),
    {
        let ghost pre = *self;
        let n = self.sig.len();
        let mut out: Vec<C> = Vec::new();
        let mut k: usize = 0;
        while k < n
            invariant
                k <= n,
                n == self.sig@.len(),
                self.sig@ == pre.sig@,
                self.entities@ == pre.entities@,
                self.cols@.len() == n,
                r < pre.entities@.len(),
                pre.wf(),
                out@ =~= pre.row(r as int).take(k as int),
                forall|j: int| k <= j < n ==> #[trigger] self.cols@[j] == pre.cols@[j],
                forall|j: int| 0 <= j < k ==> #[trigger] self.cols@[j]@ == swap_remove_seq(pre.cols@[j]@, r as int),
            decreases n - k,
        {
            assert(pre.cols@[k as int]@.len() == pre.entities@.len());
            let v = self.cols[k].swap_remove(r);
            out.push(v);
            k = k + 1;
        }
        self.entities.swap_remove(r);
        proof {
            assert(self.wf());
            let exp = swap_remove_seq(pre.rows(), r as int);
            assert forall|i: int| 0 <= i < self.rows().len() implies #[trigger] self.rows()[i] =~= exp[i] by {
                assert(pre.rows()[i] == pre.row(i));
                assert(pre.rows()[pre.entities@.len() - 1] == pre.row(pre.entities@.len() - 1));
            }
            assert(self.rows() =~= exp);
        }
        out
    }
}


impl<C> Archetype<C> {
    /// Overwrites the value of column `k` at row `r`.
    fn set_cell(&mut self, r: usize, k: usize, v: C)
        requires
            old(self).wf(),
            r < old(self).ents().len(),
            k < old(self).signature().len(),
        ensures
            final(self).wf(),
            final(self).signature() == old(self).signature(),
            final(self).ents() == old(self).ents(),
            final(self).rows() == old(self).rows().update(r as int, old(self).row(r as int).update(k as int, v)),
    {
        let ghost pre = *self;
        proof {
            assert(pre.cols@[k as int]@.len() == pre.entities@.len());
        }
        self.cols[k].set(r, v);
        proof {
            assert(self.wf());
            let exp = pre.rows().update(r as int, pre.row(r as int).update(k as int, v));
            assert forall|i: int| 0 <= i < self.rows().len() implies #[trigger] self.rows()[i] =~= exp[i] by {
                assert(pre.rows()[i] == pre.row(i));
            }
            assert(self.rows() =~= exp);
        }
    }

    /// Mutable access to the value of column `k` at row `r`.
    fn cell_mut(&mut self, r: usize, k: usize) -> (v: &mut C)
        requires
            old(self).wf(),
            r < old(self).ents().len(),
            k < old(self).signature().len(),
        ensures
            *v == old(self).row(r as int)[k as int],
            final(self).wf(),
            final(self).signature() == old(self).signature(),
            final(self).ents() == old(self).ents(),
            Self::cell_step(*old(self), *final(self), r as int, k as int, *final(v)),
            final(self).rows() == old(self).rows().update(r as int, old(self).row(r as int).update(k as int, *final(v))),
    {
        proof {
            assert(self.cols@[k as int]@.len() == self.entities@.len());
        }
        broadcast use Archetype::lemma_cell_step;
        &mut self.cols[k][r]
    }

    closed spec fn cell_step(pre: Self, post: Self, r: int, k: int, x: C) -> bool {
        &&& pre.wf()
        &&& 0 <= r < pre.entities@.len()
        &&& 0 <= k < pre.sig@.len()
        &&& post.sig@ == pre.sig@
        &&& post.entities@ == pre.entities@
        &&& post.cols@.len() == pre.cols@.len()
        &&& forall|k2: int| 0 <= k2 < pre.cols@.len() && k2 != k ==> #[trigger] post.cols@[k2] == pre.cols@[k2]
        &&& post.cols@[k]@ == pre.cols@[k]@.update(r, x)
    }

    broadcast proof fn lemma_cell_step(pre: Self, post: Self, r: int, k: int, x: C)
        requires
            #[trigger] Self::cell_step(pre, post, r, k, x),
        ensures
            post.wf(),
            post.rows() == pre.rows().update(r, pre.row(r).update(k, x)),
    {
        assert(pre.cols@[k]@.len() == pre.entities@.len());
        assert(post.wf());
        let exp = pre.rows().update(r, pre.row(r).update(k, x));
        assert forall|i: int| 0 <= i < post.rows().len() implies #[trigger] post.rows()[i] =~= exp[i] by {
            assert(pre.rows()[i] == pre.row(i));
        }
        assert(post.rows() =~= exp);
    }

    /// The value of column `k` at row `r`.
    fn cell_ref(&self, r: usize, k: usize) -> (v: &C)
        requires
            self.wf(),
            r < self.ents().len(),
            k < self.signature().len(),
        ensures
            *v == self.row(r as int)[k as int],
    {
        proof {
            assert(self.cols@[k as int]@.len() == self.entities@.len());
        }
        &self.cols[k][r]
    }
}

/// Copies a signature.
fn copy_sig(s: &Vec<u64>) -> (r: Vec<u64>)
    ensures
        r@ == s@,
{
    let mut out: Vec<u64> = Vec::new();
    let n = s.len();
    let mut i: usize = 0;
    while i < n
        invariant
            n == s@.len(),
            i <= n,
            out@ =~= s@.take(i as int),
        decreases n - i,
    {
        out.push(s[i]);
        i = i + 1;
    }
    assert(out@ =~= s@);
    out
}

/// The signature `s` with `c` added at its sorted position `p`.
fn insert_sorted(s: &Vec<u64>, c: u64) -> (r: (Vec<u64>, usize))
    requires
        sorted_strict(s@),
        !s@.contains(c),
    ensures
        r.1 <= s@.len(),
        r.0@ == s@.insert(r.1 as int, c),
        sorted_strict(r.0@),
{
    let n = s.len();
    let mut p: usize = 0;
    while p < n && s[p] < c
        invariant
            n == s@.len(),
            p <= n,
            forall|k: int| 0 <= k < p ==> s@[k] < c,
        decreases n - p,
    {
        p = p + 1;
    }
    let mut out = copy_sig(s);
    out.insert(p, c);
    proof {
        let ns = s@.insert(p as int, c);
        assert forall|i: int, j: int| 0 <= i < j < ns.len() implies ns[i] < ns[j] by {
            if p < n {
                assert(s@[p as int] != c);
                assert(s@[p as int] > c);
            }
            if i < p && j == p {
            } else if i == p as int {
                assert(ns[j] == s@[j - 1]);
                if j - 1 > p {
                    assert(s@[p as int] < s@[j - 1]);
                }
            } else {
                let oi = if i < p { i } else { i - 1 };
                let oj = if j < p { j } else if j == p { -1 } else { j - 1 };
                if j != p {
                    assert(ns[i] == s@[oi]);
                    assert(ns[j] == s@[oj]);
                }
            }
        }
    }
    (out, p)
}

// ---------------------------------------------------------------- bundles

/// A bundle lists each component id at most once.
pub open spec fn ids_distinct<C>(b: Seq<(u64, C)>) -> bool {
    forall|i: int, j: int| 0 <= i < b.len() && 0 <= j < b.len() && i != j ==> b[i].0 != b[j].0
}

/// The components a bundle describes.
pub open spec fn bundle_map<C>(b: Seq<(u64, C)>) -> Map<u64, C> {
    Map::new(
        |c: u64| exists|i: int| 0 <= i < b.len() && b[i].0 == c,
        |c: u64| b[choose|i: int| 0 <= i < b.len() && b[i].0 == c].1,
    )
}

pub proof fn lemma_bundle_map_at<C>(b: Seq<(u64, C)>, i: int)
    requires
        ids_distinct(b),
        0 <= i < b.len(),
    ensures
        bundle_map(b).contains_key(b[i].0),
        bundle_map(b)[b[i].0] == b[i].1,
{
    assert(b[i].0 == b[i].0);
    let j = choose|j: int| 0 <= j < b.len() && b[j].0 == b[i].0;
    assert(j == i);
}

proof fn lemma_bundle_map_swap_remove<C>(b: Seq<(u64, C)>, m: int)
    requires
        ids_distinct(b),
        0 <= m < b.len(),
    ensures
        ids_distinct(swap_remove_seq(b, m)),
        bundle_map(swap_remove_seq(b, m)) == bundle_map(b).remove(b[m].0),
{
    let r = swap_remove_seq(b, m);
    let last = b.len() - 1;
    assert forall|i: int, j: int| 0 <= i < r.len() && 0 <= j < r.len() && i != j implies r[i].0 != r[j].0 by {
        let oi = if i == m { last } else { i };
        let oj = if j == m { last } else { j };
        assert(r[i] == b[oi]);
        assert(r[j] == b[oj]);
    }
    let bm = bundle_map(b).remove(b[m].0);
    assert forall|c: u64| #[trigger] bundle_map(r).contains_key(c) <==> bm.contains_key(c) by {
        if bundle_map(r).contains_key(c) {
            let i = choose|i: int| 0 <= i < r.len() && r[i].0 == c;
            let oi = if i == m { last } else { i };
            assert(r[i] == b[oi]);
            lemma_bundle_map_at(b, oi);
        }
        if bm.contains_key(c) {
            let i = choose|i: int| 0 <= i < b.len() && b[i].0 == c;
            assert(i != m);
            let ri = if i == last { m } else { i };
            assert(r[ri] == b[i]);
        }
    }
    assert forall|c: u64| #[trigger] bundle_map(r).contains_key(c) implies bundle_map(r)[c] == bm[c] by {
        let i = choose|i: int| 0 <= i < r.len() && r[i].0 == c;
        let oi = if i == m { last } else { i };
        assert(r[i] == b[oi]);
        lemma_bundle_map_at(b, oi);
        lemma_bundle_map_at(r, i);
    }
    assert(bundle_map(r) =~= bm);
}

/// Inserting id `c` at position `p` of a sorted signature, with value `v` at
/// the same position of the row, adds component `c`.
proof fn lemma_zip_map_insert<C>(s: Seq<u64>, vals: Seq<C>, p: int, c: u64, v: C)
    requires
        sorted_strict(s),
        sorted_strict(s.insert(p, c)),
        0 <= p <= s.len(),
        s.len() == vals.len(),
    ensures
        zip_map(s.insert(p, c), vals.insert(p, v)) == zip_map(s, vals).insert(c, v),
{
    let ns = s.insert(p, c);
    let nv = vals.insert(p, v);
    let lhs = zip_map(ns, nv);
    let rhs = zip_map(s, vals).insert(c, v);
    assert forall|c2: u64| #[trigger] lhs.contains_key(c2) <==> rhs.contains_key(c2) by {
        if ns.contains(c2) {
            let k = choose|k: int| 0 <= k < ns.len() && ns[k] == c2;
            if k < p {
                assert(s[k] == c2);
            } else if k > p {
                assert(s[k - 1] == c2);
            }
        }
        if s.contains(c2) {
            let k = choose|k: int| 0 <= k < s.len() && s[k] == c2;
            if k < p {
                assert(ns[k] == c2);
            } else {
                assert(ns[k + 1] == c2);
            }
        }
        if c2 == c {
            assert(ns[p] == c);
        }
    }
    assert forall|c2: u64| #[trigger] lhs.contains_key(c2) implies lhs[c2] == rhs[c2] by {
        if c2 == c {
            lemma_sig_pos(ns, p);
        } else {
            let k = choose|k: int| 0 <= k < s.len() && s[k] == c2;
            lemma_sig_pos(s, k);
            if k < p {
                assert(ns[k] == c2);
                lemma_sig_pos(ns, k);
            } else {
                assert(ns[k + 1] == c2);
                lemma_sig_pos(ns, k + 1);
            }
        }
    }
    assert(lhs =~= rhs);
}

/// Removing position `p` from a sorted signature and its row drops the
/// component `s[p]`.
proof fn lemma_zip_map_remove<C>(s: Seq<u64>, vals: Seq<C>, p: int)
    requires
        sorted_strict(s),
        0 <= p < s.len(),
        s.len() == vals.len(),
    ensures
        sorted_strict(s.remove(p)),
        zip_map(s.remove(p), vals.remove(p)) == zip_map(s, vals).remove(s[p]),
{
    let ns = s.remove(p);
    let nv = vals.remove(p);
    assert forall|i: int, j: int| 0 <= i < j < ns.len() implies ns[i] < ns[j] by {
        let oi = if i < p { i } else { i + 1 };
        let oj = if j < p { j } else { j + 1 };
        assert(ns[i] == s[oi]);
        assert(ns[j] == s[oj]);
    }
    let lhs = zip_map(ns, nv);
    let rhs = zip_map(s, vals).remove(s[p]);
    assert forall|c2: u64| #[trigger] lhs.contains_key(c2) <==> rhs.contains_key(c2) by {
        if ns.contains(c2) {
            let k = choose|k: int| 0 <= k < ns.len() && ns[k] == c2;
            let ok = if k < p { k } else { k + 1 };
            assert(s[ok] == c2);
            assert(ok != p);
            if s[p] == c2 {
                lemma_sig_pos(s, ok);
                lemma_sig_pos(s, p);
            }
        }
        if rhs.contains_key(c2) {
            let k = choose|k: int| 0 <= k < s.len() && s[k] == c2;
            assert(k != p);
            if k < p {
                assert(ns[k] == c2);
            } else {
                assert(ns[k - 1] == c2);
            }
        }
    }
    assert forall|c2: u64| #[trigger] lhs.contains_key(c2) implies lhs[c2] == rhs[c2] by {
        let k = choose|k: int| 0 <= k < ns.len() && ns[k] == c2;
        lemma_sig_pos(ns, k);
        let ok = if k < p { k } else { k + 1 };
        assert(s[ok] == c2);
        lemma_sig_pos(s, ok);
    }
    assert(lhs =~= rhs);
}

/// Sorts a bundle by component id into an aligned (signature, row) pair.
fn sort_bundle<C>(bundle: Vec<(u64, C)>) -> (r: (Vec<u64>, Vec<C>))
    requires
        ids_distinct(bundle@),
    ensures
        sorted_strict(r.0@),
        r.0@.len() == r.1@.len(),
        zip_map(r.0@, r.1@) == bundle_map(bundle@),
{
    let ghost b0 = bundle@;
    let mut rest = bundle;
    let mut sig: Vec<u64> = Vec::new();
    let mut vals: Vec<C> = Vec::new();
    proof {
        assert(zip_map(sig@, vals@).union_prefer_right(bundle_map(rest@)) =~= bundle_map(b0));
    }
    while rest.len() > 0
        invariant
            ids_distinct(rest@),
            sorted_strict(sig@),
            sig@.len() == vals@.len(),
            forall|i: int, j: int| 0 <= i < sig@.len() && 0 <= j < rest@.len() ==> sig@[i] < rest@[j].0,
            zip_map(sig@, vals@).union_prefer_right(bundle_map(rest@)) == bundle_map(b0),
            forall|c: u64| #[trigger] sig@.contains(c) ==> !bundle_map(rest@).contains_key(c),
        decreases rest@.len(),
    {
        let n = rest.len();
        let mut m: usize = 0;
        let mut i: usize = 1;
        while i < n
            invariant
                n == rest@.len(),
                1 <= i <= n,
                m < i,
                forall|j: int| 0 <= j < i ==> rest@[m as int].0 <= rest@[j].0,
            decreases n - i,
        {
            if rest[i].0 < rest[m].0 {
                m = i;
            }
            i = i + 1;
        }
        let ghost pre_rest = rest@;
        let ghost pre_sig = sig@;
        let ghost pre_vals = vals@;
        proof {
            lemma_bundle_map_swap_remove(pre_rest, m as int);
            lemma_bundle_map_at(pre_rest, m as int);
        }
        let (id, v) = rest.swap_remove(m);
        assert(rest@ == swap_remove_seq(pre_rest, m as int));
        proof {
            assert forall|a: int, b: int| 0 <= a < b < pre_sig.len() + 1 implies pre_sig.push(id)[a] < pre_sig.push(id)[b] by {
                if b == pre_sig.len() {
                    assert(pre_sig[a] < pre_rest[m as int].0);
                }
            }
            lemma_zip_map_insert(pre_sig, pre_vals, pre_sig.len() as int, id, v);
            assert(pre_sig.insert(pre_sig.len() as int, id) =~= pre_sig.push(id));
            assert(pre_vals.insert(pre_vals.len() as int, v) =~= pre_vals.push(v));
        }
        sig.push(id);
        vals.push(v);
        proof {
            assert forall|a: int, b: int| 0 <= a < sig@.len() && 0 <= b < rest@.len() implies sig@[a] < rest@[b].0 by {
                let ob = if b == m { pre_rest.len() - 1 } else { b };
                assert(rest@[b] == pre_rest[ob]);
                if a < pre_sig.len() {
                } else {
                    assert(ob != m as int);
                    assert(pre_rest[m as int].0 != pre_rest[ob].0);
                }
            }
            assert forall|c: u64| #[trigger] sig@.contains(c) implies !bundle_map(rest@).contains_key(c) by {
                let k = choose|k: int| 0 <= k < sig@.len() && sig@[k] == c;
                if k < pre_sig.len() {
                    assert(pre_sig.contains(c));
                }
            }
            assert(zip_map(sig@, vals@).union_prefer_right(bundle_map(rest@)) =~= bundle_map(b0));
        }
    }
    proof {
        assert(bundle_map(rest@) =~= Map::<u64, C>::empty());
        assert(zip_map(sig@, vals@).union_prefer_right(bundle_map(rest@)) =~= zip_map(sig@, vals@));
    }
    (sig, vals)
}

fn u64s_eq(a: &[u64], b: &[u64]) -> (r: bool)
    ensures
        r == (a@ == b@),
{
    if a.len() != b.len() {
        return false;
    }
    let n = a.len();
    let mut i: usize = 0;
    while i < n
        invariant
            n == a@.len(),
            n == b@.len(),
            i <= n,
            forall|k: int| 0 <= k < i ==> a@[k] == b@[k],
        decreases n - i,
    {
        if a[i] != b[i] {
            return false;
        }
        i = i + 1;
    }
    assert(a@ =~= b@);
    true
}

// ---------------------------------------------------------------- world

#[derive(Clone, Copy)]
struct Meta {
    gen: u32,
    arch: usize,
    row: usize,
    alive: bool,
}

/// `HashMap::get_mut` of std: a mutable reference to the value stored under
/// `k` when `k` is present (writing through it changes that value and no
/// other entry), `None` and the map untouched otherwise.
#[verifier::external_body]
fn value_mut<V>(m: &mut HashMap<u64, V>, k: u64) -> (r: Option<&mut V>)
    ensures
        r is Some <==> old(m)@.contains_key(k),
        r matches Some(v) ==> *v == old(m)@[k] && final(m)@ == old(m)@.insert(k, *final(v)),
        r is None ==> final(m)@ == old(m)@,
{
    m.get_mut(&k)
}

/// The generation a slot moves to when its entity is despawned.
pub open spec fn next_generation(g: u32) -> u32 {
    if g == u32::MAX { 0 } else { (g + 1) as u32 }
}

/// The entity store plus a keyed resource bag.
pub struct World<C> {
    metas: Vec<Meta>,
    free: Vec<u32>,
    archetypes: Vec<Archetype<C>>,
    resources: HashMap<u64, C>,
}

impl<C> View for World<C> {
    type V = Map<Entity, Map<u64, C>>;

    /// Live entities and their components.
    closed spec fn view(&self) -> Map<Entity, Map<u64, C>> {
        Map::new(|e: Entity| self.live(e), |e: Entity| self.comps(e))
    }
}

impl<C> World<C> {
    pub closed spec fn live(self, e: Entity) -> bool {
        &&& (e.index as int) < self.metas@.len()
        &&& self.metas@[e.index as int].alive
        &&& self.metas@[e.index as int].gen == e.gen
    }

    pub closed spec fn comps(self, e: Entity) -> Map<u64, C> {
        let m = self.metas@[e.index as int];
        self.archetypes@[m.arch as int].row_map(m.row as int)
    }

    /// Number of entity slots ever allocated.
    pub closed spec fn slots(self) -> nat {
        self.metas@.len()
    }

    /// The current generation of slot `i`.
    pub closed spec fn generation(self, i: int) -> u32 {
        self.metas@[i].gen
    }

    /// The slots ready for reuse, in the order they were freed.
    pub closed spec fn free_list(self) -> Seq<u32> {
        self.free@
    }

    /// A handle whose slot exists but now carries another generation: it
    /// named an entity that has since been despawned.
    pub open spec fn is_stale(self, e: Entity) -> bool {
        &&& (e.index as int) < self.slots()
        &&& self.generation(e.index as int) != e.gen
    }

    /// Number of slots ready for reuse.
    pub open spec fn free_slots(self) -> nat {
        self.free_list().len()
    }

    /// Resources by id.
    pub closed spec fn res(self) -> Map<u64, C> {
        self.resources@
    }

    /// Signatures of the archetypes, in creation order.
    pub closed spec fn signatures(self) -> Seq<Seq<u64>> {
        self.archetypes@.map_values(|a: Archetype<C>| a.signature())
    }

    /// The entities of archetype `a`, in row order.
    pub closed spec fn arch_ents(self, a: int) -> Seq<Entity> {
        self.archetypes@[a].ents()
    }

    /// Another entity can be allocated without exhausting `u32` indices.
    pub open spec fn can_alloc(self) -> bool {
        self.free_slots() > 0 || self.slots() <= u32::MAX
    }

    closed spec fn meta_ok(self, i: int) -> bool {
        let m = self.metas@[i];
        m.alive ==> {
            &&& m.arch < self.archetypes@.len()
            &&& m.row < self.archetypes@[m.arch as int].ents().len()
            &&& self.archetypes@[m.arch as int].ents()[m.row as int] == Entity { index: i as u32, gen: m.gen }
        }
    }

    closed spec fn row_ok(self, a: int, r: int) -> bool {
        let e = self.archetypes@[a].ents()[r];
        &&& (e.index as int) < self.metas@.len()
        &&& self.metas@[e.index as int].alive
        &&& self.metas@[e.index as int].gen == e.gen
        &&& self.metas@[e.index as int].arch == a
        &&& self.metas@[e.index as int].row == r
    }

    pub closed spec fn wf(self) -> bool {
        &&& self.metas@.len() <= u32::MAX + 1
        &&& forall|a: int| 0 <= a < self.archetypes@.len() ==> #[trigger] self.archetypes@[a].wf()
        &&& forall|a: int, r: int|
            0 <= a < self.archetypes@.len() && 0 <= r < self.archetypes@[a].ents().len()
                ==> #[trigger] self.row_ok(a, r)
        &&& forall|i: int| 0 <= i < self.metas@.len() ==> #[trigger] self.meta_ok(i)
        &&& forall|j: int|
            0 <= j < self.free@.len() ==> (#[trigger] self.free@[j] as int) < self.metas@.len()
                && !self.metas@[self.free@[j] as int].alive
        &&& forall|j1: int, j2: int|
            0 <= j1 < self.free@.len() && 0 <= j2 < self.free@.len() && j1 != j2
                ==> self.free@[j1] != self.free@[j2]
        &&& forall|i: int|
            0 <= i < self.metas@.len() && !(#[trigger] self.metas@[i]).alive
                ==> self.free@.contains(i as u32)
        &&& forall|a1: int, a2: int|
            0 <= a1 < self.archetypes@.len() && 0 <= a2 < self.archetypes@.len() && a1 != a2
                ==> self.archetypes@[a1].signature() != self.archetypes@[a2].signature()
    }

    pub fn new() -> (w: Self)
        ensures
            w.wf(),
            w@ == Map::<Entity, Map<u64, C>>::empty(),
            w.res() == Map::<u64, C>::empty(),
            w.slots() == 0,
            w.free_slots() == 0,
            w.signatures() == Seq::<Seq<u64>>::empty(),
    {
        let w = World { metas: Vec::new(), free: Vec::new(), archetypes: Vec::new(), resources: HashMap::new() };
        assert(w@ =~= Map::<Entity, Map<u64, C>>::empty());
        assert(w.res() =~= Map::<u64, C>::empty());
        assert(w.signatures() =~= Seq::<Seq<u64>>::empty());
        w
    }

    pub fn is_alive(&self, e: Entity) -> (r: bool)
        ensures
            r == self@.contains_key(e),
    {
        let i = e.index as usize;
        if i < self.metas.len() {
            let m = self.metas[i];
            m.alive && m.gen == e.gen
        } else {
            false
        }
    }

    pub fn get(&self, e: Entity, c: u64) -> (r: Option<&C>)
        requires
            self.wf(),
        ensures
            match r {
                Some(v) => self@.contains_key(e) && self@[e].contains_key(c) && *v == self@[e][c],
                None => !(self@.contains_key(e) && self@[e].contains_key(c)),
            },
    {
        if !self.is_alive(e) {
            return None;
        }
        let m = self.metas[e.index as usize];
        proof {
            assert(self.meta_ok(e.index as int));
            assert(self.archetypes@[m.arch as int].wf());
        }
        let arch = &self.archetypes[m.arch];
        match arch.col_index(c) {
            None => None,
            Some(k) => {
                proof {
                    assert(arch.cols@[k as int]@.len() == arch.entities@.len());
                    assert(arch.row(m.row as int)[k as int] == arch.cols@[k as int]@[m.row as int]);
                }
                Some(&arch.cols[k][m.row])
            },
        }
    }

    pub fn has(&self, e: Entity, c: u64) -> (r: bool)
        requires
            self.wf(),
        ensures
            r == (self@.contains_key(e) && self@[e].contains_key(c)),
    {
        self.get(e, c).is_some()
    }

    /// Whether another entity can be allocated (see [`World::can_alloc`]).
    pub fn can_spawn(&self) -> (r: bool)
        ensures
            r == self.can_alloc(),
    {
        self.free.len() > 0 || self.metas.len() <= u32::MAX as usize
    }

    /// The entity the next `spawn` hands out: the most recently freed slot
    /// at its current generation, or a fresh slot at generation 0.
    pub open spec fn next_entity(self) -> Entity {
        if self.free_list().len() > 0 {
            let i = self.free_list().last();
            Entity { index: i, gen: self.generation(i as int) }
        } else {
            Entity { index: self.slots() as u32, gen: 0 }
        }
    }

    /// Slot bookkeeping left as it was: the same slots, the same free list,
    /// the same generations.
    pub open spec fn keeps_slots(self, post: Self) -> bool {
        &&& post.slots() == self.slots()
        &&& post.free_list() == self.free_list()
        &&& forall|i: int| 0 <= i < self.slots() ==> #[trigger] post.generation(i) == self.generation(i)
    }

    /// The same live entities and the same slot bookkeeping; only component
    /// values or resources may differ.
    pub open spec fn keeps_entities(self, post: Self) -> bool {
        &&& post@.dom() == self@.dom()
        &&& self.keeps_slots(post)
    }

    /// What `spawn(bundle)` does: the handle `next_entity()`, not live
    /// before, comes alive with the bundle's components; a reused slot leaves
    /// the end of the free list, otherwise a new slot opens at generation 0;
    /// no other generation changes.
    pub open spec fn spawn_effect(self, post: Self, bundle: Seq<(u64, C)>) -> bool {
        &&& !self@.contains_key(self.next_entity())
        &&& post@ == self@.insert(self.next_entity(), bundle_map(bundle))
        &&& post.res() == self.res()
        &&& if self.free_list().len() > 0 {
            &&& post.slots() == self.slots()
            &&& post.free_list() == self.free_list().drop_last()
        } else {
            &&& post.slots() == self.slots() + 1
            &&& post.free_list() == self.free_list()
            &&& post.generation(self.slots() as int) == 0
        }
        &&& forall|i: int| 0 <= i < self.slots() ==> #[trigger] post.generation(i) == self.generation(i)
    }

    /// What `despawn(e)` does: `e` leaves the map; if it was alive, its slot
    /// goes to the end of the free list with the next generation.
    pub open spec fn despawn_effect(self, post: Self, e: Entity) -> bool {
        &&& post@ == self@.remove(e)
        &&& post.res() == self.res()
        &&& if self@.contains_key(e) {
            &&& post.slots() == self.slots()
            &&& post.free_list() == self.free_list().push(e.index)
            &&& post.generation(e.index as int) == next_generation(e.gen)
            &&& forall|i: int| 0 <= i < self.slots() && i != e.index ==> #[trigger] post.generation(i) == self.generation(i)
        } else {
            self.keeps_slots(post)
        }
    }

    fn find_archetype(&self, sig: &Vec<u64>) -> (r: Option<usize>)
        ensures
            match r {
                Some(a) => a < self.archetypes@.len() && self.archetypes@[a as int].signature() == sig@,
                None => forall|a: int| 0 <= a < self.archetypes@.len() ==> #[trigger] self.archetypes@[a].signature() != sig@,
            },
    {
        let n = self.archetypes.len();
        let mut a: usize = 0;
        while a < n
            invariant
                n == self.archetypes@.len(),
                a <= n,
                forall|b: int| 0 <= b < a ==> #[trigger] self.archetypes@[b].signature() != sig@,
            decreases n - a,
        {
            if u64s_eq(self.archetypes[a].sig.as_slice(), sig.as_slice()) {
                return Some(a);
            }
            a = a + 1;
        }
        None
    }

    fn get_or_create_archetype(&mut self, sig: Vec<u64>) -> (ai: usize)
        requires
            old(self).wf(),
            sorted_strict(sig@),
        ensures
            final(self).wf(),
            ai < final(self).archetypes@.len(),
            final(self).archetypes@[ai as int].signature() == sig@,
            final(self).metas@ == old(self).metas@,
            final(self).free@ == old(self).free@,
            final(self).resources@ == old(self).resources@,
            final(self).archetypes@.len() >= old(self).archetypes@.len(),
            forall|a: int| 0 <= a < old(self).archetypes@.len() ==> #[trigger] final(self).archetypes@[a] == old(self).archetypes@[a],
            ai >= old(self).archetypes@.len() ==> final(self).archetypes@[ai as int].ents().len() == 0,
            final(self)@ == old(self)@,
    {
        match self.find_archetype(&sig) {
            Some(a) => a,
            None => {
                let ghost pre = *self;
                let arch = Archetype::new_empty(sig);
                self.archetypes.push(arch);
                proof {
                    let n = pre.archetypes@.len();
                    assert(self.archetypes@[n as int].ents().len() == 0);
                    assert forall|a: int| 0 <= a < self.archetypes@.len() implies #[trigger] self.archetypes@[a].wf() by {
                        if a < n {
                            assert(pre.archetypes@[a].wf());
                        }
                    }
                    assert forall|a: int, r: int|
                        0 <= a < self.archetypes@.len() && 0 <= r < self.archetypes@[a].ents().len()
                        implies #[trigger] self.row_ok(a, r) by {
                        assert(pre.row_ok(a, r));
                    }
                    assert forall|i: int| 0 <= i < self.metas@.len() implies #[trigger] self.meta_ok(i) by {
                        assert(pre.meta_ok(i));
                    }
                    assert forall|i: int|
                        0 <= i < self.metas@.len() && !(#[trigger] self.metas@[i]).alive
                        implies self.free@.contains(i as u32) by {
                        assert(!pre.metas@[i].alive);
                    }
                    assert forall|e: Entity| #[trigger] self.live(e) implies self.comps(e) == pre.comps(e) by {
                        assert(pre.meta_ok(e.index as int));
                    }
                    assert(self@ =~= pre@);
                }
                self.archetypes.len() - 1
            },
        }
    }

    /// Creates an entity with the components of `bundle`.
    pub fn spawn(&mut self, bundle: Vec<(u64, C)>) -> (e: Entity)
        requires
            old(self).wf(),
            ids_distinct(bundle@),
            old(self).can_alloc(),
        ensures
            final(self).wf(),
            e == old(self).next_entity(),
            old(self).spawn_effect(*final(self), bundle@),
            final(self).signatures().len() >= old(self).signatures().len(),
            forall|a: int| 0 <= a < old(self).signatures().len() ==> #[trigger] final(self).signatures()[a] == old(self).signatures()[a],
            final(self)@.dom().finite(),
            final(self)@.len() == old(self)@.len() + 1,
    {
        let ghost pre = *self;
        proof {
            self.lemma_live_count();
        }
        let ghost bm = bundle_map(bundle@);
        let (sig, vals) = sort_bundle(bundle);
        let ai = self.get_or_create_archetype(sig);
        let ghost mid = *self;
        let e: Entity;
        if self.free.len() > 0 {
            let index = self.free.pop().unwrap();
            proof {
                assert(mid.free@[mid.free@.len() - 1] == index);
            }
            let g = self.metas[index as usize].gen;
            e = Entity { index, gen: g };
        } else {
            let index = self.metas.len() as u32;
            self.metas.push(Meta { gen: 0, arch: 0, row: 0, alive: false });
            e = Entity { index, gen: 0 };
        }
        let ghost mid2 = *self;
        proof {
            assert(mid.archetypes@[ai as int].wf());
        }
        let row = self.archetypes[ai].entities.len();
        self.archetypes[ai].push_row(e, vals);
        self.metas.set(e.index as usize, Meta { gen: e.gen, arch: ai, row, alive: true });
        proof {
            let idx = e.index as int;
            assert(!(mid.metas@.len() > idx) ==> mid2.metas@.len() == idx + 1);
            // slot idx was dead (or fresh) before
            assert(idx < mid.metas@.len() ==> !mid.metas@[idx].alive);
            assert(forall|i: int| 0 <= i < mid.metas@.len() && i != idx ==> self.metas@[i] == mid.metas@[i]);
            assert forall|a: int| 0 <= a < self.archetypes@.len() implies #[trigger] self.archetypes@[a].wf() by {
                if a != ai {
                    assert(mid.archetypes@[a].wf());
                }
            }
            assert forall|a: int, r: int|
                0 <= a < self.archetypes@.len() && 0 <= r < self.archetypes@[a].ents().len()
                implies #[trigger] self.row_ok(a, r) by {
                if a == ai && r == row {
                } else {
                    assert(mid.row_ok(a, r));
                    if a == ai {
                        assert(self.archetypes@[a].ents()[r] == mid.archetypes@[a].ents()[r]);
                    }
                    let x = mid.archetypes@[a].ents()[r];
                    assert(x.index as int != idx);
                }
            }
            assert forall|i: int| 0 <= i < self.metas@.len() implies #[trigger] self.meta_ok(i) by {
                if i != idx {
                    assert(mid.meta_ok(i));
                    let m = mid.metas@[i];
                    if m.alive && m.arch == ai {
                        assert(self.archetypes@[ai as int].ents()[m.row as int] == mid.archetypes@[ai as int].ents()[m.row as int]);
                    }
                }
            }
            assert forall|j: int| 0 <= j < self.free@.len() implies (#[trigger] self.free@[j] as int) < self.metas@.len()
                && !self.metas@[self.free@[j] as int].alive by {
                assert(self.free@[j] == mid.free@[j]);
                if mid.free@.len() > 0 {
                    assert(mid.free@[j] != mid.free@[mid.free@.len() - 1]);
                }
            }
            assert forall|i: int|
                0 <= i < self.metas@.len() && !(#[trigger] self.metas@[i]).alive
                implies self.free@.contains(i as u32) by {
                assert(i != idx);
                assert(!mid.metas@[i].alive);
                assert(mid.free@.contains(i as u32));
                let j = choose|j: int| 0 <= j < mid.free@.len() && mid.free@[j] == i as u32;
                if mid.free@.len() > 0 {
                    assert(j != mid.free@.len() - 1);
                }
                assert(self.free@[j] == i as u32);
            }
            assert forall|a1: int, a2: int|
                0 <= a1 < self.archetypes@.len() && 0 <= a2 < self.archetypes@.len() && a1 != a2
                implies self.archetypes@[a1].signature() != self.archetypes@[a2].signature() by {
                assert(mid.archetypes@[a1].signature() != mid.archetypes@[a2].signature());
            }
            assert(self.wf());
            // view
            let target = pre@.insert(e, bm);
            assert forall|x: Entity| #[trigger] self.live(x) <==> target.contains_key(x) by {
                if x.index as int != idx {
                    if (x.index as int) < self.metas@.len() {
                        assert(self.metas@[x.index as int] == mid.metas@[x.index as int]);
                    }
                }
            }
            assert forall|x: Entity| #[trigger] self.live(x) implies self.comps(x) == target[x] by {
                if x == e {
                    assert(self.archetypes@[ai as int].rows()[row as int] == vals@);
                    assert(self.archetypes@[ai as int].row(row as int) == self.archetypes@[ai as int].rows()[row as int]);
                    assert(self.archetypes@[ai as int].row(row as int) =~= vals@);
                } else {
                    assert(mid.meta_ok(x.index as int));
                    let m = mid.metas@[x.index as int];
                    assert(self.metas@[x.index as int] == m);
                    if m.arch == ai {
                        assert(self.archetypes@[ai as int].rows()[m.row as int] == mid.archetypes@[ai as int].rows()[m.row as int]);
                        assert(self.archetypes@[ai as int].row(m.row as int) =~= mid.archetypes@[ai as int].row(m.row as int));
                    }
                }
            }
            assert(self@ =~= target);
            assert forall|x: Entity| pre.is_stale(x) implies #[trigger] self.is_stale(x) by {
                assert(x.index as int != idx || self.metas@[idx].gen == mid.metas@[idx].gen);
            }
        }
        proof {
            self.lemma_live_count();
            old(self).lemma_live_count();
            assert(self@.dom() =~= old(self)@.dom().insert(e));
        }
        e
    }

    /// `wf` with slot `idx` still marked alive but no longer placed in any
    /// archetype row.
    closed spec fn wf_except(self, idx: int) -> bool {
        &&& self.metas@.len() <= u32::MAX + 1
        &&& 0 <= idx < self.metas@.len()
        &&& self.metas@[idx].alive
        &&& forall|a: int| 0 <= a < self.archetypes@.len() ==> #[trigger] self.archetypes@[a].wf()
        &&& forall|a: int, r: int|
            0 <= a < self.archetypes@.len() && 0 <= r < self.archetypes@[a].ents().len()
                ==> #[trigger] self.row_ok(a, r)
        &&& forall|a: int, r: int|
            0 <= a < self.archetypes@.len() && 0 <= r < self.archetypes@[a].ents().len()
                ==> (#[trigger] self.archetypes@[a].ents()[r]).index as int != idx
        &&& forall|i: int| 0 <= i < self.metas@.len() && i != idx ==> #[trigger] self.meta_ok(i)
        &&& forall|j: int|
            0 <= j < self.free@.len() ==> (#[trigger] self.free@[j] as int) < self.metas@.len()
                && !self.metas@[self.free@[j] as int].alive
        &&& forall|j1: int, j2: int|
            0 <= j1 < self.free@.len() && 0 <= j2 < self.free@.len() && j1 != j2
                ==> self.free@[j1] != self.free@[j2]
        &&& forall|i: int|
            0 <= i < self.metas@.len() && !(#[trigger] self.metas@[i]).alive
                ==> self.free@.contains(i as u32)
        &&& forall|a1: int, a2: int|
            0 <= a1 < self.archetypes@.len() && 0 <= a2 < self.archetypes@.len() && a1 != a2
                ==> self.archetypes@[a1].signature() != self.archetypes@[a2].signature()
    }

    /// Takes live entity `e` out of its archetype row (swap-remove), fixing
    /// the row of the entity that moved into its place; returns its row.
    fn detach(&mut self, e: Entity) -> (vals: Vec<C>)
        requires
            old(self).wf(),
            old(self).live(e),
        ensures
            final(self).wf_except(e.index as int),
            vals@ == old(self).archetypes@[old(self).metas@[e.index as int].arch as int].row(
                old(self).metas@[e.index as int].row as int,
            ),
            final(self).archetypes@.len() == old(self).archetypes@.len(),
            forall|a: int| 0 <= a < old(self).archetypes@.len() ==> #[trigger] final(self).archetypes@[a].signature() == old(self).archetypes@[a].signature(),
            final(self).metas@.len() == old(self).metas@.len(),
            forall|i: int| 0 <= i < old(self).metas@.len() ==> (#[trigger] final(self).metas@[i]).gen == old(self).metas@[i].gen
                && final(self).metas@[i].alive == old(self).metas@[i].alive,
            final(self).metas@[e.index as int] == old(self).metas@[e.index as int],
            final(self).free@ == old(self).free@,
            final(self).resources@ == old(self).resources@,
            forall|x: Entity| #[trigger] old(self).live(x) && x != e ==> final(self).live(x) && final(self).comps(x) == old(self).comps(x),
    {
        let ghost pre = *self;
        let idx = e.index as usize;
        let m = self.metas[idx];
        proof {
            assert(pre.meta_ok(idx as int));
            assert(pre.archetypes@[m.arch as int].wf());
        }
        let a = m.arch;
        let row = m.row;
        let vals = self.archetypes[a].take_row(row);
        let ghost mid = *self;
        if row < self.archetypes[a].entities.len() {
            let moved = self.archetypes[a].entities[row];
            proof {
                let last = pre.archetypes@[a as int].ents().len() - 1;
                assert(moved == pre.archetypes@[a as int].ents()[last]);
                assert(pre.row_ok(a as int, last));
            }
            let mi = moved.index as usize;
            let mm = self.metas[mi];
            self.metas.set(mi, Meta { gen: mm.gen, arch: mm.arch, row, alive: mm.alive });
        }
        proof {
            let ea = pre.archetypes@[a as int].ents();
            let last = ea.len() - 1;
            let moved_idx: int = if (row as int) < last { ea[last].index as int } else { -1 };
            assert forall|i: int| 0 <= i < self.metas@.len() && i != moved_idx implies #[trigger] self.metas@[i] == pre.metas@[i] by {}
            assert forall|a2: int| 0 <= a2 < self.archetypes@.len() implies #[trigger] self.archetypes@[a2].wf() by {
                assert(mid.archetypes@[a2].wf() || a2 == a);
                assert(pre.archetypes@[a2].wf());
            }
            if (row as int) < last {
                assert(pre.row_ok(a as int, last));
                assert(pre.row_ok(a as int, row as int));
                assert(moved_idx != idx);
            }
            assert forall|a2: int, r: int|
                0 <= a2 < self.archetypes@.len() && 0 <= r < self.archetypes@[a2].ents().len()
                implies (#[trigger] self.archetypes@[a2].ents()[r]).index as int != idx by {
                if a2 == a {
                    if r == row {
                        assert(self.archetypes@[a2].ents()[r] == ea[last]);
                    } else {
                        assert(self.archetypes@[a2].ents()[r] == ea[r]);
                        assert(pre.row_ok(a2, r));
                        assert(pre.row_ok(a as int, row as int));
                    }
                } else {
                    assert(pre.row_ok(a2, r));
                }
            }
            assert forall|a2: int, r: int|
                0 <= a2 < self.archetypes@.len() && 0 <= r < self.archetypes@[a2].ents().len()
                implies #[trigger] self.row_ok(a2, r) by {
                if a2 == a {
                    if r == row {
                        assert(self.archetypes@[a2].ents()[r] == ea[last]);
                        assert(pre.row_ok(a2, last));
                    } else {
                        assert(self.archetypes@[a2].ents()[r] == ea[r]);
                        assert(pre.row_ok(a2, r));
                        assert(ea[r].index as int != moved_idx) by {
                            if (row as int) < last {
                                assert(pre.row_ok(a2, last));
                            }
                        }
                    }
                } else {
                    assert(pre.row_ok(a2, r));
                    let x = pre.archetypes@[a2].ents()[r];
                    if (row as int) < last {
                        assert(pre.row_ok(a as int, last));
                        assert(x.index as int != moved_idx);
                    }
                }
            }
            assert forall|i: int| 0 <= i < self.metas@.len() && i != idx implies #[trigger] self.meta_ok(i) by {
                assert(pre.meta_ok(i));
                let mi2 = pre.metas@[i];
                if mi2.alive {
                    if i == moved_idx {
                        assert(pre.row_ok(a as int, last));
                    } else if mi2.arch == a {
                        assert(mi2.row != row) by {
                            assert(pre.row_ok(a as int, row as int));
                        }
                        if mi2.row as int == last {
                            assert(pre.row_ok(a as int, last));
                        }
                        assert(self.archetypes@[a as int].ents()[mi2.row as int] == ea[mi2.row as int]);
                    }
                }
            }
            assert forall|i: int|
                0 <= i < self.metas@.len() && !(#[trigger] self.metas@[i]).alive
                implies self.free@.contains(i as u32) by {
                assert(!pre.metas@[i].alive);
            }
            if (row as int) < last {
                assert(pre.row_ok(a as int, last));
                assert(pre.row_ok(a as int, row as int));
                assert(moved_idx != idx);
            }
            assert(self.metas@[idx as int] == pre.metas@[idx as int]);
            assert forall|j: int| 0 <= j < self.free@.len() implies (#[trigger] self.free@[j] as int) < self.metas@.len()
                && !self.metas@[self.free@[j] as int].alive by {
                assert(!pre.metas@[pre.free@[j] as int].alive);
                if (row as int) < last {
                    assert(pre.row_ok(a as int, last));
                }
            }
            assert forall|a1: int, a2: int|
                0 <= a1 < self.archetypes@.len() && 0 <= a2 < self.archetypes@.len() && a1 != a2
                implies self.archetypes@[a1].signature() != self.archetypes@[a2].signature() by {
                assert(pre.archetypes@[a1].signature() != pre.archetypes@[a2].signature());
            }
            assert(self.wf_except(idx as int));
            assert forall|x: Entity| #[trigger] pre.live(x) && x != e implies self.live(x) && self.comps(x) == pre.comps(x) by {
                let xi = x.index as int;
                assert(pre.meta_ok(xi));
                let mx = pre.metas@[xi];
                assert(xi != idx);
                if mx.arch == a {
                    assert(mx.row != row) by {
                        assert(pre.row_ok(a as int, row as int));
                    }
                    let rows_new = self.archetypes@[a as int].rows();
                    let rows_old = pre.archetypes@[a as int].rows();
                    if xi == moved_idx {
                        assert(pre.row_ok(a as int, last));
                        assert(rows_new[row as int] == rows_old[last]);
                        assert(self.archetypes@[a as int].row(row as int) =~= pre.archetypes@[a as int].row(last));
                    } else {
                        assert(rows_new[mx.row as int] == rows_old[mx.row as int]);
                        assert(self.archetypes@[a as int].row(mx.row as int) =~= pre.archetypes@[a as int].row(mx.row as int));
                    }
                }
            }
        }
        vals
    }

    /// Destroys `e`; returns whether it was alive. Its handle goes stale.
    pub fn despawn(&mut self, e: Entity) -> (r: bool)
        requires
            old(self).wf(),
        ensures
            final(self).wf(),
            r == old(self)@.contains_key(e),
            old(self).despawn_effect(*final(self), e),
            final(self).signatures().len() >= old(self).signatures().len(),
            forall|a: int| 0 <= a < old(self).signatures().len() ==> #[trigger] final(self).signatures()[a] == old(self).signatures()[a],
            final(self)@.dom().finite(),
            final(self)@.len() == old(self)@.len() - if r { 1int } else { 0int },
    {
        if !self.is_alive(e) {
            proof {
                self.lemma_live_count();
                assert(self@.remove(e) =~= self@);
            }
            return false;
        }
        let ghost pre = *self;
        let _vals = self.detach(e);
        let ghost mid = *self;
        let idx = e.index as usize;
        let m = self.metas[idx];
        self.metas.set(idx, Meta { gen: m.gen.wrapping_add(1), arch: m.arch, row: m.row, alive: false });
        self.free.push(e.index);
        proof {
            assert forall|a: int, r: int|
                0 <= a < self.archetypes@.len() && 0 <= r < self.archetypes@[a].ents().len()
                implies #[trigger] self.row_ok(a, r) by {
                assert(mid.row_ok(a, r));
                assert(mid.archetypes@[a].ents()[r].index as int != idx);
            }
            assert forall|i: int| 0 <= i < self.metas@.len() implies #[trigger] self.meta_ok(i) by {
                if i != idx {
                    assert(mid.meta_ok(i));
                }
            }
            assert forall|j: int| 0 <= j < self.free@.len() implies (#[trigger] self.free@[j] as int) < self.metas@.len()
                && !self.metas@[self.free@[j] as int].alive by {
                if j < mid.free@.len() {
                    assert(self.free@[j] == mid.free@[j]);
                }
            }
            assert forall|j1: int, j2: int|
                0 <= j1 < self.free@.len() && 0 <= j2 < self.free@.len() && j1 != j2
                implies self.free@[j1] != self.free@[j2] by {
                if j1 < mid.free@.len() {
                    assert(!mid.metas@[mid.free@[j1] as int].alive);
                }
                if j2 < mid.free@.len() {
                    assert(!mid.metas@[mid.free@[j2] as int].alive);
                }
            }
            assert forall|i: int|
                0 <= i < self.metas@.len() && !(#[trigger] self.metas@[i]).alive
                implies self.free@.contains(i as u32) by {
                if i == idx {
                    assert(self.free@[self.free@.len() - 1] == idx as u32);
                } else {
                    assert(!mid.metas@[i].alive);
                    let j = choose|j: int| 0 <= j < mid.free@.len() && mid.free@[j] == i as u32;
                    assert(self.free@[j] == i as u32);
                }
            }
            assert(self.wf());
            let target = pre@.remove(e);
            assert forall|x: Entity| #[trigger] self.live(x) <==> target.contains_key(x) by {
                if pre.live(x) && x != e {
                    assert(mid.live(x));
                }
                if self.live(x) {
                    assert(x.index as int != idx);
                    assert(mid.metas@[x.index as int] == self.metas@[x.index as int]);
                }
            }
            assert forall|x: Entity| #[trigger] self.live(x) implies self.comps(x) == target[x] by {
                assert(x.index as int != idx);
                assert(mid.metas@[x.index as int] == self.metas@[x.index as int]);
                assert(mid.live(x));
                assert(pre.live(x));
            }
            assert(self@ =~= target);
            assert(self.res() == pre.res());
            assert(e.gen as int + 1 <= u32::MAX ==> m.gen.wrapping_add(1) == e.gen + 1);
        }
        proof {
            assert(self.free@.last() == e.index);
            assert(self.metas@[idx as int].gen == m.gen.wrapping_add(1));
        }
        proof {
            self.lemma_live_count();
            old(self).lemma_live_count();
            assert(self@.dom() =~= old(self)@.dom().remove(e));
        }
        true
    }

    /// Places entity `e` (whose slot is still marked alive) at the end of
    /// archetype `dst` with row `vals`.
    fn attach(&mut self, e: Entity, dst: usize, vals: Vec<C>)
        requires
            old(self).wf_except(e.index as int),
            old(self).metas@[e.index as int].gen == e.gen,
            dst < old(self).archetypes@.len(),
            vals@.len() == old(self).archetypes@[dst as int].signature().len(),
        ensures
            final(self).wf(),
            final(self).live(e),
            final(self).comps(e) == zip_map(old(self).archetypes@[dst as int].signature(), vals@),
            forall|x: Entity| #[trigger] old(self).live(x) && x != e ==> final(self).live(x) && final(self).comps(x) == old(self).comps(x),
            forall|x: Entity| #[trigger] final(self).live(x) ==> old(self).live(x),
            final(self).metas@.len() == old(self).metas@.len(),
            forall|i: int| 0 <= i < old(self).metas@.len() ==> (#[trigger] final(self).metas@[i]).gen == old(self).metas@[i].gen,
            final(self).free@ == old(self).free@,
            final(self).resources@ == old(self).resources@,
            final(self).archetypes@.len() == old(self).archetypes@.len(),
            forall|a: int| 0 <= a < old(self).archetypes@.len() ==> #[trigger] final(self).archetypes@[a].signature() == old(self).archetypes@[a].signature(),
    {
        let ghost pre = *self;
        let idx = e.index as usize;
        proof {
            assert(pre.archetypes@[dst as int].wf());
        }
        let row = self.archetypes[dst].entities.len();
        self.archetypes[dst].push_row(e, vals);
        let m = self.metas[idx];
        self.metas.set(idx, Meta { gen: m.gen, arch: dst, row, alive: true });
        proof {
            assert forall|a: int| 0 <= a < self.archetypes@.len() implies #[trigger] self.archetypes@[a].wf() by {
                if a != dst {
                    assert(pre.archetypes@[a].wf());
                }
            }
            assert forall|a: int, r: int|
                0 <= a < self.archetypes@.len() && 0 <= r < self.archetypes@[a].ents().len()
                implies #[trigger] self.row_ok(a, r) by {
                if a == dst && r == row {
                } else {
                    if a == dst {
                        assert(self.archetypes@[a].ents()[r] == pre.archetypes@[a].ents()[r]);
                    }
                    assert(pre.row_ok(a, r));
                    assert(pre.archetypes@[a].ents()[r].index as int != idx);
                }
            }
            assert forall|i: int| 0 <= i < self.metas@.len() implies #[trigger] self.meta_ok(i) by {
                if i != idx {
                    assert(pre.meta_ok(i));
                    let mi = pre.metas@[i];
                    if mi.alive && mi.arch == dst {
                        assert(self.archetypes@[dst as int].ents()[mi.row as int] == pre.archetypes@[dst as int].ents()[mi.row as int]);
                    }
                }
            }
            assert forall|j: int| 0 <= j < self.free@.len() implies (#[trigger] self.free@[j] as int) < self.metas@.len()
                && !self.metas@[self.free@[j] as int].alive by {
                assert(!pre.metas@[pre.free@[j] as int].alive);
            }
            assert forall|i: int|
                0 <= i < self.metas@.len() && !(#[trigger] self.metas@[i]).alive
                implies self.free@.contains(i as u32) by {
                assert(!pre.metas@[i].alive);
            }
            assert forall|a1: int, a2: int|
                0 <= a1 < self.archetypes@.len() && 0 <= a2 < self.archetypes@.len() && a1 != a2
                implies self.archetypes@[a1].signature() != self.archetypes@[a2].signature() by {
                assert(pre.archetypes@[a1].signature() != pre.archetypes@[a2].signature());
            }
            assert(self.wf());
            assert(self.archetypes@[dst as int].rows()[row as int] == vals@);
            assert(self.archetypes@[dst as int].row(row as int) =~= vals@);
            assert forall|x: Entity| #[trigger] pre.live(x) && x != e implies self.live(x) && self.comps(x) == pre.comps(x) by {
                let xi = x.index as int;
                assert(xi != idx);
                assert(pre.meta_ok(xi));
                let mx = pre.metas@[xi];
                if mx.arch == dst {
                    assert(self.archetypes@[dst as int].rows()[mx.row as int] == pre.archetypes@[dst as int].rows()[mx.row as int]);
                    assert(self.archetypes@[dst as int].row(mx.row as int) =~= pre.archetypes@[dst as int].row(mx.row as int));
                }
            }
            assert forall|x: Entity| #[trigger] self.live(x) implies pre.live(x) by {
                if x.index as int != idx {
                    assert(self.metas@[x.index as int] == pre.metas@[x.index as int]);
                }
            }
        }
    }

    /// Adds (or overwrites) component `c` of `e`, moving the entity to the
    /// archetype of its new signature when `c` is new. No effect on a dead
    /// handle.
    pub fn insert(&mut self, e: Entity, c: u64, value: C)
        requires
            old(self).wf(),
        ensures
            final(self).wf(),
            old(self)@.contains_key(e) ==> final(self)@ == old(self)@.insert(e, old(self)@[e].insert(c, value)),
            !old(self)@.contains_key(e) ==> final(self)@ == old(self)@,
            final(self).res() == old(self).res(),
            old(self).keeps_slots(*final(self)),
            final(self).signatures().len() >= old(self).signatures().len(),
            forall|a: int| 0 <= a < old(self).signatures().len() ==> #[trigger] final(self).signatures()[a] == old(self).signatures()[a],
    {
        if !self.is_alive(e) {
            return;
        }
        let ghost pre = *self;
        let idx = e.index as usize;
        let m = self.metas[idx];
        proof {
            assert(pre.meta_ok(idx as int));
            assert(pre.archetypes@[m.arch as int].wf());
        }
        let src = m.arch;
        match self.archetypes[src].col_index(c) {
            Some(k) => {
                self.archetypes[src].set_cell(m.row, k, value);
                proof {
                    let a = src as int;
                    let r = m.row as int;
                    assert forall|a2: int| 0 <= a2 < self.archetypes@.len() implies #[trigger] self.archetypes@[a2].wf() by {
                        assert(pre.archetypes@[a2].wf());
                    }
                    assert forall|a2: int, r2: int|
                        0 <= a2 < self.archetypes@.len() && 0 <= r2 < self.archetypes@[a2].ents().len()
                        implies #[trigger] self.row_ok(a2, r2) by {
                        assert(pre.row_ok(a2, r2));
                    }
                    assert forall|i: int| 0 <= i < self.metas@.len() implies #[trigger] self.meta_ok(i) by {
                        assert(pre.meta_ok(i));
                    }
                    assert forall|i: int|
                        0 <= i < self.metas@.len() && !(#[trigger] self.metas@[i]).alive
                        implies self.free@.contains(i as u32) by {
                        assert(!pre.metas@[i].alive);
                    }
                    assert forall|a1: int, a2: int|
                        0 <= a1 < self.archetypes@.len() && 0 <= a2 < self.archetypes@.len() && a1 != a2
                        implies self.archetypes@[a1].signature() != self.archetypes@[a2].signature() by {
                        assert(pre.archetypes@[a1].signature() != pre.archetypes@[a2].signature());
                    }
                    assert(self.wf());
                    let target = pre@.insert(e, pre@[e].insert(c, value));
                    let arow = pre.archetypes@[a].row(r);
                    assert(self.archetypes@[a].rows()[r] == arow.update(k as int, value));
                    assert(self.archetypes@[a].row(r) =~= arow.update(k as int, value));
                    assert forall|x: Entity| #[trigger] self.live(x) <==> target.contains_key(x) by {}
                    assert forall|x: Entity| #[trigger] self.live(x) implies self.comps(x) == target[x] by {
                        if x == e {
                            let sg = pre.archetypes@[a].signature();
                            let lhs = zip_map(sg, arow.update(k as int, value));
                            let rhs = zip_map(sg, arow).insert(c, value);
                            assert forall|c2: u64| #[trigger] lhs.contains_key(c2) implies lhs[c2] == rhs[c2] by {
                                let kk = choose|kk: int| 0 <= kk < sg.len() && sg[kk] == c2;
                                lemma_sig_pos(sg, kk);
                            }
                            assert(lhs =~= rhs);
                        } else {
                            assert(pre.meta_ok(x.index as int));
                            let mx = pre.metas@[x.index as int];
                            if mx.arch as int == a {
                                assert(mx.row as int != r) by {
                                    assert(pre.row_ok(a, r));
                                }
                                assert(self.archetypes@[a].rows()[mx.row as int] == pre.archetypes@[a].rows()[mx.row as int]);
                                assert(self.archetypes@[a].row(mx.row as int) =~= pre.archetypes@[a].row(mx.row as int));
                            }
                        }
                    }
                    assert(self@ =~= target);
                }
            },
            None => {
                let (sig2, p) = insert_sorted(&self.archetypes[src].sig, c);
                let dst = self.get_or_create_archetype(sig2);
                let ghost mid = *self;
                proof {
                    assert(mid.live(e));
                    assert(mid.archetypes@[src as int] == pre.archetypes@[src as int]);
                }
                let mut vals = self.detach(e);
                let ghost mid2 = *self;
                proof {
                    assert(mid.metas@[idx as int] == pre.metas@[idx as int]);
                    assert(vals@.len() == pre.archetypes@[src as int].signature().len());
                }
                vals.insert(p, value);
                self.attach(e, dst, vals);
                proof {
                    let sg = pre.archetypes@[src as int].signature();
                    let arow = pre.archetypes@[src as int].row(m.row as int);
                    lemma_zip_map_insert(sg, arow, p as int, c, value);
                    let target = pre@.insert(e, pre@[e].insert(c, value));
                    assert forall|x: Entity| #[trigger] self.live(x) <==> target.contains_key(x) by {
                        if x != e && pre.live(x) {
                            assert(mid.live(x));
                            assert(mid2.live(x));
                        }
                        if self.live(x) && x != e {
                            assert(mid2.live(x));
                            assert(mid2.metas@[x.index as int].alive == mid.metas@[x.index as int].alive);
                        }
                    }
                    assert forall|x: Entity| #[trigger] self.live(x) implies self.comps(x) == target[x] by {
                        if x != e {
                            assert(mid2.live(x));
                            assert(mid.live(x));
                            assert(pre.live(x));
                            assert(mid@[x] == mid.comps(x));
                            assert(pre@[x] == pre.comps(x));
                            assert(mid.comps(x) == pre.comps(x));
                        }
                    }
                    assert(self@ =~= target);
                    assert forall|x: Entity| pre.is_stale(x) implies #[trigger] self.is_stale(x) by {
                        assert(mid2.metas@[x.index as int].gen == mid.metas@[x.index as int].gen);
                    }
                }
            },
        }
    }

    /// Removes component `c` from `e`, moving the entity to the archetype of
    /// its reduced signature. No effect if `e` is dead or lacks `c`.
    pub fn remove(&mut self, e: Entity, c: u64)
        requires
            old(self).wf(),
        ensures
            final(self).wf(),
            old(self)@.contains_key(e) && old(self)@[e].contains_key(c)
                ==> final(self)@ == old(self)@.insert(e, old(self)@[e].remove(c)),
            !(old(self)@.contains_key(e) && old(self)@[e].contains_key(c)) ==> final(self)@ == old(self)@,
            final(self).res() == old(self).res(),
            old(self).keeps_slots(*final(self)),
            final(self).signatures().len() >= old(self).signatures().len(),
            forall|a: int| 0 <= a < old(self).signatures().len() ==> #[trigger] final(self).signatures()[a] == old(self).signatures()[a],
    {
        if !self.is_alive(e) || !self.has(e, c) {
            return;
        }
        let ghost pre = *self;
        let idx = e.index as usize;
        let m = self.metas[idx];
        proof {
            assert(pre.meta_ok(idx as int));
            assert(pre.archetypes@[m.arch as int].wf());
        }
        let src = m.arch;
        let p = self.archetypes[src].col_index(c).unwrap();
        let mut sig2 = copy_sig(&self.archetypes[src].sig);
        sig2.remove(p);
        proof {
            let sg = pre.archetypes@[src as int].signature();
            lemma_zip_map_remove(sg, pre.archetypes@[src as int].row(m.row as int), p as int);
        }
        let dst = self.get_or_create_archetype(sig2);
        let ghost mid = *self;
        proof {
            assert(mid.live(e));
            assert(mid.archetypes@[src as int] == pre.archetypes@[src as int]);
        }
        let mut vals = self.detach(e);
        let ghost mid2 = *self;
        proof {
            assert(mid.metas@[idx as int] == pre.metas@[idx as int]);
        }
        vals.remove(p);
        self.attach(e, dst, vals);
        proof {
            let target = pre@.insert(e, pre@[e].remove(c));
            assert forall|x: Entity| #[trigger] self.live(x) <==> target.contains_key(x) by {
                if x != e && pre.live(x) {
                    assert(mid.live(x));
                    assert(mid2.live(x));
                }
                if self.live(x) && x != e {
                    assert(mid2.live(x));
                    assert(mid2.metas@[x.index as int].alive == mid.metas@[x.index as int].alive);
                }
            }
            assert forall|x: Entity| #[trigger] self.live(x) implies self.comps(x) == target[x] by {
                if x != e {
                    assert(mid2.live(x));
                    assert(mid.live(x));
                    assert(pre.live(x));
                    assert(mid@[x] == mid.comps(x));
                    assert(pre@[x] == pre.comps(x));
                    assert(mid.comps(x) == pre.comps(x));
                }
            }
            assert(self@ =~= target);
            assert forall|x: Entity| pre.is_stale(x) implies #[trigger] self.is_stale(x) by {
                assert(mid2.metas@[x.index as int].gen == mid.metas@[x.index as int].gen);
            }
        }
    }

    /// Mutable access to component `c` of `e`.
    pub fn get_mut(&mut self, e: Entity, c: u64) -> (r: Option<&mut C>)
        requires
            old(self).wf(),
        ensures
            final(self).wf(),
            r is Some <==> (old(self)@.contains_key(e) && old(self)@[e].contains_key(c)),
            r matches Some(v) ==> *v == old(self)@[e][c]
                && final(self)@ == old(self)@.insert(e, old(self)@[e].insert(c, *final(v))),
            r is None ==> final(self)@ == old(self)@,
            final(self).res() == old(self).res(),
            old(self).keeps_slots(*final(self)),
            final(self).signatures().len() >= old(self).signatures().len(),
            forall|a: int| 0 <= a < old(self).signatures().len() ==> #[trigger] final(self).signatures()[a] == old(self).signatures()[a],
    {
        if !self.is_alive(e) {
            return None;
        }
        let ghost pre = *self;
        let idx = e.index as usize;
        let m = self.metas[idx];
        proof {
            assert(pre.meta_ok(idx as int));
            assert(pre.archetypes@[m.arch as int].wf());
        }
        match self.archetypes[m.arch].col_index(c) {
            None => None,
            Some(k) => {
                proof {
                    let a = m.arch as int;
                    let sg = pre.archetypes@[a].signature();
                    assert(pre.archetypes@[a].row(m.row as int)[k as int] == pre@[e][c]);
                }
                Some(self.cell_in(m.arch, m.row, k, e))
            },
        }
    }

    fn cell_in(&mut self, a: usize, r: usize, k: usize, e: Entity) -> (v: &mut C)
        requires
            old(self).wf(),
            old(self).live(e),
            old(self).metas@[e.index as int].arch == a,
            old(self).metas@[e.index as int].row == r,
            k < old(self).archetypes@[a as int].signature().len(),
        ensures
            *v == old(self).archetypes@[a as int].row(r as int)[k as int],
            Self::cell_step(*old(self), *final(self), e, k as int, *final(v)),
            final(self).wf(),
            final(self)@ == old(self)@.insert(
                e,
                old(self)@[e].insert(old(self).archetypes@[a as int].signature()[k as int], *final(v)),
            ),
    {
        proof {
            let pre = *self;
            assert(pre.meta_ok(e.index as int));
            assert(pre.archetypes@[a as int].wf());
        }
        broadcast use World::lemma_cell_step;
        self.archetypes[a].cell_mut(r, k)
    }

    /// `post` is `pre` with the value in column `k` of live entity `e`'s row
    /// replaced by `x`.
    closed spec fn cell_step(pre: Self, post: Self, e: Entity, k: int, x: C) -> bool {
        let m = pre.metas@[e.index as int];
        let a = m.arch as int;
        &&& pre.wf()
        &&& pre.live(e)
        &&& 0 <= k < pre.archetypes@[a].signature().len()
        &&& post.metas@ == pre.metas@
        &&& post.free@ == pre.free@
        &&& post.resources@ == pre.resources@
        &&& post.archetypes@.len() == pre.archetypes@.len()
        &&& forall|a2: int| 0 <= a2 < pre.archetypes@.len() && a2 != a ==> #[trigger] post.archetypes@[a2] == pre.archetypes@[a2]
        &&& post.archetypes@[a].wf()
        &&& post.archetypes@[a].signature() == pre.archetypes@[a].signature()
        &&& post.archetypes@[a].ents() == pre.archetypes@[a].ents()
        &&& post.archetypes@[a].rows() == pre.archetypes@[a].rows().update(
            m.row as int,
            pre.archetypes@[a].row(m.row as int).update(k, x),
        )
    }

    broadcast proof fn lemma_cell_step(pre: Self, post: Self, e: Entity, k: int, x: C)
        requires
            #[trigger] Self::cell_step(pre, post, e, k, x),
        ensures
            post.wf(),
            post@ == pre@.insert(e, pre@[e].insert(pre.archetypes@[pre.metas@[e.index as int].arch as int].signature()[k], x)),
    {
        let m = pre.metas@[e.index as int];
        let a = m.arch as int;
        let r = m.row as int;
        assert(pre.meta_ok(e.index as int));
        assert forall|a2: int| 0 <= a2 < post.archetypes@.len() implies #[trigger] post.archetypes@[a2].wf() by {
            assert(pre.archetypes@[a2].wf());
        }
        assert forall|a2: int, r2: int|
            0 <= a2 < post.archetypes@.len() && 0 <= r2 < post.archetypes@[a2].ents().len()
            implies #[trigger] post.row_ok(a2, r2) by {
            assert(pre.row_ok(a2, r2));
        }
        assert forall|i: int| 0 <= i < post.metas@.len() implies #[trigger] post.meta_ok(i) by {
            assert(pre.meta_ok(i));
        }
        assert forall|i: int|
            0 <= i < post.metas@.len() && !(#[trigger] post.metas@[i]).alive
            implies post.free@.contains(i as u32) by {
            assert(!pre.metas@[i].alive);
        }
        assert forall|a1: int, a2: int|
            0 <= a1 < post.archetypes@.len() && 0 <= a2 < post.archetypes@.len() && a1 != a2
            implies post.archetypes@[a1].signature() != post.archetypes@[a2].signature() by {
            assert(pre.archetypes@[a1].signature() != pre.archetypes@[a2].signature());
        }
        assert(post.wf());
        let sg = pre.archetypes@[a].signature();
        let c = sg[k];
        let target = pre@.insert(e, pre@[e].insert(c, x));
        let arow = pre.archetypes@[a].row(r);
        assert(pre.archetypes@[a].wf());
        assert(post.archetypes@[a].rows()[r] == arow.update(k, x));
        assert(post.archetypes@[a].row(r) =~= arow.update(k, x));
        assert forall|y: Entity| #[trigger] post.live(y) <==> target.contains_key(y) by {}
        assert forall|y: Entity| #[trigger] post.live(y) implies post.comps(y) == target[y] by {
            if y == e {
                let lhs = zip_map(sg, arow.update(k, x));
                let rhs = zip_map(sg, arow).insert(c, x);
                lemma_sig_pos(sg, k);
                assert forall|c2: u64| #[trigger] lhs.contains_key(c2) implies lhs[c2] == rhs[c2] by {
                    let kk = choose|kk: int| 0 <= kk < sg.len() && sg[kk] == c2;
                    lemma_sig_pos(sg, kk);
                }
                assert(lhs =~= rhs);
            } else {
                assert(pre.meta_ok(y.index as int));
                let my = pre.metas@[y.index as int];
                if my.arch as int == a {
                    assert(my.row as int != r) by {
                        assert(pre.row_ok(a, r));
                    }
                    assert(post.archetypes@[a].rows()[my.row as int] == pre.archetypes@[a].rows()[my.row as int]);
                    assert(post.archetypes@[a].row(my.row as int) =~= pre.archetypes@[a].row(my.row as int));
                }
            }
        }
        assert(post@ =~= target);
    }

    // ------------------------------------------------------------ iteration

    /// Entities of the first `n` archetypes whose signature has every id in
    /// `ids`, archetype by archetype, in row order.
    pub closed spec fn matching_upto(self, ids: Seq<u64>, n: int) -> Seq<Entity>
        decreases n,
    {
        if n <= 0 {
            Seq::empty()
        } else {
            let a = self.archetypes@[n - 1];
            let tail = if a.ents().len() > 0 && (forall|i: int| 0 <= i < ids.len() ==> a.signature().contains(#[trigger] ids[i])) {
                a.ents()
            } else {
                Seq::empty()
            };
            self.matching_upto(ids, n - 1) + tail
        }
    }

    /// All entities having every component in `ids`, in iteration order
    /// (archetype creation order, then row order).
    pub closed spec fn matching(self, ids: Seq<u64>) -> Seq<Entity> {
        self.matching_upto(ids, self.archetypes@.len() as int)
    }

    fn arch_has_all(&self, a: usize, ids: &[u64]) -> (r: bool)
        requires
            self.wf(),
            a < self.archetypes@.len(),
        ensures
            r == (forall|i: int| 0 <= i < ids@.len() ==> self.archetypes@[a as int].signature().contains(#[trigger] ids@[i])),
    {
        proof {
            assert(self.archetypes@[a as int].wf());
        }
        let n = ids.len();
        let mut i: usize = 0;
        while i < n
            invariant
                n == ids@.len(),
                i <= n,
                a < self.archetypes@.len(),
                self.archetypes@[a as int].wf(),
                forall|j: int| 0 <= j < i ==> self.archetypes@[a as int].signature().contains(#[trigger] ids@[j]),
            decreases n - i,
        {
            if !self.archetypes[a].contains(ids[i]) {
                return false;
            }
            i = i + 1;
        }
        true
    }

    /// Entities that have every component in `ids`, archetype by archetype.
    pub fn query(&self, ids: &[u64]) -> (r: Vec<Entity>)
        requires
            self.wf(),
        ensures
            r@ == self.matching(ids@),
    {
        let mut out: Vec<Entity> = Vec::new();
        let na = self.archetypes.len();
        let mut a: usize = 0;
        while a < na
            invariant
                na == self.archetypes@.len(),
                a <= na,
                self.wf(),
                out@ == self.matching_upto(ids@, a as int),
            decreases na - a,
        {
            let ghost before = out@;
            if self.archetypes[a].entities.len() > 0 && self.arch_has_all(a, ids) {
                let ents = &self.archetypes[a].entities;
                let m = ents.len();
                let mut r: usize = 0;
                while r < m
                    invariant
                        m == ents@.len(),
                        r <= m,
                        out@ == before + ents@.take(r as int),
                    decreases m - r,
                {
                    out.push(ents[r]);
                    r = r + 1;
                    assert(out@ =~= before + ents@.take(r as int));
                }
                assert(ents@.take(m as int) =~= ents@);
            } else {
                assert(out@ =~= before + Seq::<Entity>::empty());
            }
            a = a + 1;
        }
        out
    }

    /// Number of entities having every component in `ids`.
    pub fn count(&self, ids: &[u64]) -> (r: usize)
        requires
            self.wf(),
        ensures
            r == self.matching(ids@).len(),
    {
        self.query(ids).len()
    }

    /// Live entity slots (allocated minus free).
    pub fn entity_count(&self) -> (r: usize)
        requires
            self.wf(),
        ensures
            r == self.slots() - self.free_slots(),
            r == self@.len(),
    {
        proof {
            self.lemma_free_le_slots();
            self.lemma_live_count();
        }
        self.metas.len() - self.free.len()
    }

    /// A free list without repeats inside `[0, slots)` is no longer than that range.
    proof fn lemma_free_le_slots(self)
        requires
            self.wf(),
        ensures
            self.free_slots() <= self.slots(),
    {
        let s = self.free@.map_values(|x: u32| x as int).to_set();
        let range = Set::new(|i: int| 0 <= i < self.metas@.len());
        assert(s.subset_of(range));
        vstd::set_lib::lemma_int_range(0, self.metas@.len() as int);
        assert(range =~= vstd::set_lib::set_int_range(0, self.metas@.len() as int));
        vstd::set_lib::lemma_len_subset(s, range);
        let mv = self.free@.map_values(|x: u32| x as int);
        assert forall|i: int, j: int| 0 <= i < mv.len() && 0 <= j < mv.len() && i != j implies mv[i] != mv[j] by {}
        assert(mv.no_duplicates());
        mv.unique_seq_to_set();
    }

    /// Rows held by the first `n` archetypes.
    pub open spec fn rows_before(self, n: int) -> int
        decreases n,
    {
        if n <= 0 {
            0
        } else {
            self.rows_before(n - 1) + self.arch_ents(n - 1).len()
        }
    }

    spec fn live_in(self, n: int) -> Set<Entity> {
        Set::new(|e: Entity| self.live(e) && (self.metas@[e.index as int].arch as int) < n)
    }

    proof fn lemma_rows_before(self, n: int)
        requires
            self.wf(),
            0 <= n <= self.archetypes@.len(),
        ensures
            self.live_in(n).finite(),
            self.live_in(n).len() == self.rows_before(n),
        decreases n,
    {
        self.lemma_live_count();
        assert(self.live_in(n).subset_of(self@.dom()));
        vstd::set_lib::lemma_len_subset(self.live_in(n), self@.dom());
        if n == 0 {
            assert(self.live_in(0) =~= Set::<Entity>::empty());
        } else {
            let a = n - 1;
            self.lemma_rows_before(a);
            let ents = self.archetypes@[a].ents();
            assert(ents.no_duplicates()) by {
                assert forall|i: int, k: int| 0 <= i < ents.len() && 0 <= k < ents.len() && i != k implies ents[i] != ents[k] by {
                    assert(self.row_ok(a, i));
                    assert(self.row_ok(a, k));
                }
            }
            ents.unique_seq_to_set();
            let here = ents.to_set();
            assert forall|e: Entity| #[trigger] here.contains(e) <==> (self.live(e) && self.metas@[e.index as int].arch as int == a) by {
                if here.contains(e) {
                    let r = choose|r: int| 0 <= r < ents.len() && ents[r] == e;
                    assert(self.row_ok(a, r));
                }
                if self.live(e) && self.metas@[e.index as int].arch as int == a {
                    assert(self.meta_ok(e.index as int));
                    let m = self.metas@[e.index as int];
                    assert(ents[m.row as int] == e);
                }
            }
            assert(self.live_in(n) =~= self.live_in(a) + here);
            assert(self.live_in(a).disjoint(here));
            vstd::set_lib::lemma_set_disjoint_lens(self.live_in(a), here);
        }
    }

    /// Law: the archetypes together hold every live entity exactly once, so
    /// their row counts add up to the entity count.
    pub proof fn law_rows_add_up_to_entities(self)
        requires
            self.wf(),
        ensures
            self.rows_before(self.signatures().len() as int) == self@.len(),
    {
        let n = self.archetypes@.len() as int;
        self.lemma_rows_before(n);
        assert forall|e: Entity| #[trigger] self.live_in(n).contains(e) <==> self@.dom().contains(e) by {
            if self.live(e) {
                assert(self.meta_ok(e.index as int));
            }
        }
        assert(self.live_in(n) =~= self@.dom());
    }

    /// (component count, entity count) per archetype, in creation order.
    pub fn archetype_stats(&self) -> (r: Vec<(usize, usize)>)
        ensures
            r@.len() == self.signatures().len(),
            forall|a: int| 0 <= a < r@.len() ==> #[trigger] r@[a] == (self.signatures()[a].len() as usize, self.arch_ents(a).len() as usize),
    {
        let mut out: Vec<(usize, usize)> = Vec::new();
        let n = self.archetypes.len();
        let mut a: usize = 0;
        while a < n
            invariant
                n == self.archetypes@.len(),
                a <= n,
                out@.len() == a,
                forall|b: int| 0 <= b < a ==> #[trigger] out@[b] == (self.signatures()[b].len() as usize, self.arch_ents(b).len() as usize),
            decreases n - a,
        {
            out.push((self.archetypes[a].sig.len(), self.archetypes[a].entities.len()));
            a = a + 1;
        }
        out
    }

    // ------------------------------------------------------------ resources

    /// Stores resource `id` (replacing any previous value).
    pub fn insert_resource(&mut self, id: u64, r: C)
        requires
            old(self).wf(),
        ensures
            final(self).wf(),
            final(self).res() == old(self).res().insert(id, r),
            final(self)@ == old(self)@,
            old(self).keeps_slots(*final(self)),
            final(self).signatures().len() >= old(self).signatures().len(),
            forall|a: int| 0 <= a < old(self).signatures().len() ==> #[trigger] final(self).signatures()[a] == old(self).signatures()[a],
    {
        let ghost pre = *self;
        self.resources.insert(id, r);
        proof {
            self.lemma_same_entities(pre);
        }
    }

    /// Entities are untouched when only resources change.
    proof fn lemma_same_entities(self, pre: Self)
        requires
            pre.wf(),
            self.metas@ == pre.metas@,
            self.free@ == pre.free@,
            self.archetypes@ == pre.archetypes@,
        ensures
            self.wf(),
            self@ == pre@,
    {
        assert forall|a: int, r: int|
            0 <= a < self.archetypes@.len() && 0 <= r < self.archetypes@[a].ents().len()
            implies #[trigger] self.row_ok(a, r) by {
            assert(pre.row_ok(a, r));
        }
        assert forall|i: int| 0 <= i < self.metas@.len() implies #[trigger] self.meta_ok(i) by {
            assert(pre.meta_ok(i));
        }
        assert(self@ =~= pre@);
    }

    /// Resource `id`; the caller must know it is present.
    pub fn resource(&self, id: u64) -> (r: &C)
        requires
            self.wf(),
            self.res().contains_key(id),
        ensures
            *r == self.res()[id],
    {
        self.resources.get(&id).unwrap()
    }

    /// Mutable access to resource `id`; the caller must know it is present.
    pub fn resource_mut(&mut self, id: u64) -> (r: &mut C)
        requires
            old(self).wf(),
            old(self).res().contains_key(id),
        ensures
            *r == old(self).res()[id],
            final(self).wf(),
            final(self).res() == old(self).res().insert(id, *final(r)),
            final(self)@ == old(self)@,
            old(self).keeps_slots(*final(self)),
            final(self).signatures() == old(self).signatures(),
    {
        broadcast use World::lemma_res_step;
        self.res_slot(id)
    }

    fn res_slot(&mut self, id: u64) -> (r: &mut C)
        requires
            old(self).wf(),
            old(self).res().contains_key(id),
        ensures
            *r == old(self).res()[id],
            Self::res_step(*old(self), *final(self), id, *final(r)),
    {
        value_mut(&mut self.resources, id).unwrap()
    }

    closed spec fn res_step(pre: Self, post: Self, id: u64, x: C) -> bool {
        &&& pre.wf()
        &&& post.metas@ == pre.metas@
        &&& post.free@ == pre.free@
        &&& post.archetypes@ == pre.archetypes@
        &&& post.resources@ == pre.resources@.insert(id, x)
    }

    broadcast proof fn lemma_res_step(pre: Self, post: Self, id: u64, x: C)
        requires
            #[trigger] Self::res_step(pre, post, id, x),
        ensures
            post.wf(),
            post.res() == pre.res().insert(id, x),
            post@ == pre@,
            post.signatures() == pre.signatures(),
    {
        post.lemma_same_entities(pre);
    }

    pub fn try_resource(&self, id: u64) -> (r: Option<&C>)
        requires
            self.wf(),
        ensures
            match r {
                Some(v) => self.res().contains_key(id) && *v == self.res()[id],
                None => !self.res().contains_key(id),
            },
    {
        self.resources.get(&id)
    }

    pub fn remove_resource(&mut self, id: u64) -> (r: Option<C>)
        requires
            old(self).wf(),
        ensures
            final(self).wf(),
            match r {
                Some(v) => old(self).res().contains_key(id) && v == old(self).res()[id],
                None => !old(self).res().contains_key(id),
            },
            final(self).res() == old(self).res().remove(id),
            final(self)@ == old(self)@,
            old(self).keeps_slots(*final(self)),
            final(self).signatures().len() >= old(self).signatures().len(),
            forall|a: int| 0 <= a < old(self).signatures().len() ==> #[trigger] final(self).signatures()[a] == old(self).signatures()[a],
    {
        let ghost pre = *self;
        let r = self.resources.remove(&id);
        proof {
            self.lemma_same_entities(pre);
        }
        r
    }

    /// Law (fresh handles): the handle the next spawn returns is not live
    /// and is none of the stale handles; a freed slot is reused (the most
    /// recently freed first) before a new slot is opened.
    pub proof fn law_next_entity_fresh(self, x: Entity)
        requires
            self.wf(),
            self.can_alloc(),
        ensures
            !self@.contains_key(self.next_entity()),
            self.is_stale(x) ==> self.next_entity() != x,
            self.free_slots() > 0 ==> self.next_entity().index < self.slots(),
            self.free_slots() == 0 ==> self.next_entity() == (Entity { index: self.slots() as u32, gen: 0 }),
    {
        if self.free@.len() > 0 {
            let j = self.free@.len() - 1;
            assert(self.free@[j] == self.free@.last());
            assert((self.free@[j] as int) < self.metas@.len() && !self.metas@[self.free@[j] as int].alive);
        }
    }

    /// Law: as long as slot `u32::MAX` has not been opened, the dead handle
    /// names no live entity.
    pub proof fn law_dead_is_never_alive(self)
        requires
            self.wf(),
            self.slots() <= u32::MAX,
        ensures
            !self@.contains_key(Entity { index: u32::MAX, gen: u32::MAX }),
    {
    }

    /// Law: a live handle names an existing slot at its current generation.
    pub proof fn law_live_handle_has_current_generation(self, e: Entity)
        requires
            self@.contains_key(e),
        ensures
            (e.index as int) < self.slots(),
            self.generation(e.index as int) == e.gen,
    {
    }

    /// Law: a stale handle never reads as alive.
    pub proof fn law_stale_is_dead(self, e: Entity)
        requires
            self.is_stale(e),
        ensures
            !self@.contains_key(e),
    {
    }

    proof fn lemma_matching_upto_sound(self, ids: Seq<u64>, n: int, j: int)
        requires
            self.wf(),
            0 <= n <= self.archetypes@.len(),
            0 <= j < self.matching_upto(ids, n).len(),
        ensures
            ({
                let x = self.matching_upto(ids, n)[j];
                &&& self@.contains_key(x)
                &&& forall|i: int| 0 <= i < ids.len() ==> #[trigger] self@[x].contains_key(ids[i])
            }),
        decreases n,
    {
        let prefix = self.matching_upto(ids, n - 1);
        if j < prefix.len() {
            self.lemma_matching_upto_sound(ids, n - 1, j);
        } else {
            let a = n - 1;
            let r = j - prefix.len();
            let x = self.archetypes@[a].ents()[r];
            assert(self.matching_upto(ids, n)[j] == x);
            assert(self.row_ok(a, r));
            assert(self.live(x));
            assert forall|i: int| 0 <= i < ids.len() implies #[trigger] self@[x].contains_key(ids[i]) by {
                assert(self.archetypes@[a].signature().contains(ids[i]));
            }
        }
    }

    proof fn lemma_matching_upto_distinct(self, ids: Seq<u64>, n: int)
        requires
            self.wf(),
            0 <= n <= self.archetypes@.len(),
        ensures
            self.matching_upto(ids, n).no_duplicates(),
            forall|j: int| 0 <= j < self.matching_upto(ids, n).len() ==> {
                let x = #[trigger] self.matching_upto(ids, n)[j];
                &&& (x.index as int) < self.metas@.len()
                &&& (self.metas@[x.index as int].arch as int) < n
            },
        decreases n,
    {
        if n > 0 {
            let a = n - 1;
            self.lemma_matching_upto_distinct(ids, a);
            let prefix = self.matching_upto(ids, a);
            let m = self.matching_upto(ids, n);
            assert forall|j: int| 0 <= j < m.len() implies {
                let x = #[trigger] m[j];
                &&& (x.index as int) < self.metas@.len()
                &&& (self.metas@[x.index as int].arch as int) < n
            } by {
                if j < prefix.len() {
                    assert(m[j] == prefix[j]);
                } else {
                    assert(self.row_ok(a, j - prefix.len()));
                }
            }
            assert forall|i: int, k: int| 0 <= i < m.len() && 0 <= k < m.len() && i != k implies m[i] != m[k] by {
                if i < prefix.len() && k < prefix.len() {
                    assert(m[i] == prefix[i] && m[k] == prefix[k]);
                } else if i >= prefix.len() && k >= prefix.len() {
                    assert(self.row_ok(a, i - prefix.len()));
                    assert(self.row_ok(a, k - prefix.len()));
                } else if i < prefix.len() {
                    assert(m[i] == prefix[i]);
                    assert(self.row_ok(a, k - prefix.len()));
                } else {
                    assert(m[k] == prefix[k]);
                    assert(self.row_ok(a, i - prefix.len()));
                }
            }
        }
    }

    /// Law (no repeats): a query yields each entity at most once.
    pub proof fn law_query_no_repeats(self, ids: Seq<u64>)
        requires
            self.wf(),
        ensures
            self.matching(ids).no_duplicates(),
    {
        self.lemma_matching_upto_distinct(ids, self.archetypes@.len() as int);
    }

    /// Law (counting): a query yields exactly the live entities that hold
    /// every requested component, each once, so its length is their number.
    pub proof fn law_query_counts_matches(self, ids: Seq<u64>)
        requires
            self.wf(),
        ensures
            self.matching(ids).to_set() == self@.dom().filter(
                |e: Entity| forall|i: int| 0 <= i < ids.len() ==> #[trigger] self@[e].contains_key(ids[i]),
            ),
            self.matching(ids).len() == self@.dom().filter(
                |e: Entity| forall|i: int| 0 <= i < ids.len() ==> #[trigger] self@[e].contains_key(ids[i]),
            ).len(),
    {
        let m = self.matching(ids);
        let f = self@.dom().filter(
            |e: Entity| forall|i: int| 0 <= i < ids.len() ==> #[trigger] self@[e].contains_key(ids[i]),
        );
        self.law_query_no_repeats(ids);
        assert forall|x: Entity| m.to_set().contains(x) <==> f.contains(x) by {
            if m.to_set().contains(x) {
                let j = choose|j: int| 0 <= j < m.len() && m[j] == x;
                self.law_query_sound(ids, j);
            }
            if f.contains(x) {
                self.law_query_complete(ids, x);
            }
        }
        assert(m.to_set() =~= f);
        m.unique_seq_to_set();
    }

    /// Law (soundness of queries): every entity a query yields is alive and
    /// has every requested component.
    pub proof fn law_query_sound(self, ids: Seq<u64>, j: int)
        requires
            self.wf(),
            0 <= j < self.matching(ids).len(),
        ensures
            self@.contains_key(self.matching(ids)[j]),
            forall|i: int| 0 <= i < ids.len() ==> #[trigger] self@[self.matching(ids)[j]].contains_key(ids[i]),
    {
        self.lemma_matching_upto_sound(ids, self.archetypes@.len() as int, j);
    }

    proof fn lemma_matching_upto_complete(self, ids: Seq<u64>, n: int, x: Entity)
        requires
            self.wf(),
            0 <= n <= self.archetypes@.len(),
            self.live(x),
            (self.metas@[x.index as int].arch as int) < n,
            forall|i: int| 0 <= i < ids.len() ==> #[trigger] self.comps(x).contains_key(ids[i]),
        ensures
            self.matching_upto(ids, n).contains(x),
        decreases n,
    {
        let m = self.metas@[x.index as int];
        assert(self.meta_ok(x.index as int));
        if (m.arch as int) < n - 1 {
            self.lemma_matching_upto_complete(ids, n - 1, x);
            let prefix = self.matching_upto(ids, n - 1);
            let k = choose|k: int| 0 <= k < prefix.len() && prefix[k] == x;
            assert(self.matching_upto(ids, n)[k] == x);
        } else {
            let a = n - 1;
            let arch = self.archetypes@[a];
            assert forall|i: int| 0 <= i < ids.len() implies arch.signature().contains(#[trigger] ids[i]) by {
                assert(self.comps(x).contains_key(ids[i]));
            }
            let prefix = self.matching_upto(ids, n - 1);
            assert(self.matching_upto(ids, n)[prefix.len() + m.row] == arch.ents()[m.row as int]);
        }
    }

    /// Law (completeness of queries): every live entity that has every
    /// requested component is yielded by the query.
    pub proof fn law_query_complete(self, ids: Seq<u64>, x: Entity)
        requires
            self.wf(),
            self@.contains_key(x),
            forall|i: int| 0 <= i < ids.len() ==> #[trigger] self@[x].contains_key(ids[i]),
        ensures
            self.matching(ids).contains(x),
    {
        assert(self.meta_ok(x.index as int));
        assert forall|i: int| 0 <= i < ids.len() implies #[trigger] self.comps(x).contains_key(ids[i]) by {
            assert(self@[x].contains_key(ids[i]));
        }
        self.lemma_matching_upto_complete(ids, self.archetypes@.len() as int, x);
    }

    /// The live entities are in one-to-one correspondence with the slots not
    /// on the free list.
    pub proof fn lemma_live_count(self)
        requires
            self.wf(),
        ensures
            self@.dom().finite(),
            self@.dom().len() == self.slots() - self.free_slots(),
    {
        let n = self.metas@.len() as int;
        let r = vstd::set_lib::set_int_range(0, n);
        vstd::set_lib::lemma_int_range(0, n);
        let fv = self.free@.map_values(|x: u32| x as int);
        assert(fv.no_duplicates()) by {
            assert forall|i: int, j: int| 0 <= i < fv.len() && 0 <= j < fv.len() && i != j implies fv[i] != fv[j] by {}
        }
        fv.unique_seq_to_set();
        let d = fv.to_set();
        assert(d.subset_of(r)) by {
            assert forall|x: int| d.contains(x) implies r.contains(x) by {
                let j = choose|j: int| 0 <= j < fv.len() && fv[j] == x;
                assert(fv[j] == self.free@[j] as int);
            }
        }
        vstd::set_lib::lemma_len_subset(d, r);
        assert(d.finite());
        vstd::set_lib::lemma_set_difference_len(r, d);
        assert(r.intersect(d) =~= d);
        let a = r.difference(d);
        let f = |i: int| Entity { index: i as u32, gen: self.metas@[i].gen };
        assert(vstd::relations::injective_on(f, a)) by {
            assert forall|x: int, y: int| a.contains(x) && a.contains(y) && #[trigger] f(x) == #[trigger] f(y) implies x == y by {
                assert(0 <= x < n && 0 <= y < n);
                assert((x as u32) as int == x);
                assert((y as u32) as int == y);
            }
        }
        assert(a.map(f) =~= self@.dom()) by {
            assert forall|e: Entity| a.map(f).contains(e) <==> #[trigger] self@.dom().contains(e) by {
                if self@.dom().contains(e) {
                    let i = e.index as int;
                    assert(self.live(e));
                    assert(!d.contains(i)) by {
                        if d.contains(i) {
                            let j = choose|j: int| 0 <= j < fv.len() && fv[j] == i;
                            assert(!self.metas@[self.free@[j] as int].alive);
                        }
                    }
                    assert(a.contains(i));
                    assert(f(i) == e);
                }
                if a.map(f).contains(e) {
                    let i = choose|i: int| a.contains(i) && f(i) == e;
                    assert(!d.contains(i));
                    if !self.metas@[i].alive {
                        assert(self.free@.contains(i as u32));
                        let j = choose|j: int| 0 <= j < self.free@.len() && self.free@[j] == i as u32;
                        assert(fv[j] == i);
                    }
                    assert(self.live(e));
                }
            }
        }
        vstd::set_lib::lemma_map_size(a, self@.dom(), f);
    }
}


// ---------------------------------------------------------------- commands

/// Deferred work on a world, recorded by [`CommandBuffer::run`]. An
/// implementation reaches the world only through its public methods, whose
/// contracts keep it well formed; that is what `run_on` promises.
pub trait WorldOp<C> {
    fn run_on(&self, world: &mut World<C>)
        requires
            old(world).wf(),
        ensures
            final(world).wf(),
    ;
}

/// One deferred edit.
#[verifier::reject_recursive_types(C)]
pub enum Command<C> {
    Spawn(Vec<(u64, C)>),
    Despawn(Entity),
    Run(Box<dyn WorldOp<C>>),
}

/// The effect of one command, leaving a well-formed world: a spawn does
/// exactly what `World::spawn` does (and nothing on a world whose slot
/// indices are used up), a despawn exactly what `World::despawn` does; a
/// recorded operation may change the world in any way that keeps it well
/// formed.
pub open spec fn command_step<C>(before: World<C>, after: World<C>, op: Command<C>) -> bool {
    &&& after.wf()
    &&& match op {
        Command::Spawn(b) => if before.can_alloc() {
            before.spawn_effect(after, b@)
        } else {
            after == before
        },
        Command::Despawn(e) => before.despawn_effect(after, e),
        Command::Run(_) => true,
    }
}

/// `worlds[i + 1]` is `worlds[i]` after `ops[i]`.
pub open spec fn command_trace<C>(worlds: Seq<World<C>>, ops: Seq<Command<C>>) -> bool {
    &&& worlds.len() == ops.len() + 1
    &&& worlds[0].wf()
    &&& forall|i: int| 0 <= i < ops.len() ==> #[trigger] command_step(worlds[i], worlds[i + 1], ops[i])
}

/// Law: applying a buffer with no commands leaves the world as it was; in
/// particular applying a buffer a second time, once `apply` has emptied it,
/// changes nothing.
pub proof fn law_empty_buffer_changes_nothing<C>(worlds: Seq<World<C>>)
    requires
        command_trace(worlds, Seq::<Command<C>>::empty()),
    ensures
        worlds.last() == worlds[0],
{
}

/// Only spawns and despawns, no recorded operation.
pub open spec fn structural_only<C>(ops: Seq<Command<C>>) -> bool {
    forall|i: int| 0 <= i < ops.len() ==> !(#[trigger] ops[i] matches Command::Run(_))
}

/// Deferred structural changes, recorded during iteration, applied after.
#[verifier::reject_recursive_types(C)]
pub struct CommandBuffer<C> {
    ops: Vec<Command<C>>,
}

impl<C> CommandBuffer<C> {
    /// Recorded commands, in order.
    pub closed spec fn pending(self) -> Seq<Command<C>> {
        self.ops@
    }

    /// Every recorded spawn names each component once.
    pub open spec fn wf(self) -> bool {
        forall|i: int| 0 <= i < self.pending().len() ==> match #[trigger] self.pending()[i] {
            Command::Spawn(b) => ids_distinct(b@),
            _ => true,
        }
    }

    pub fn new() -> (r: Self)
        ensures
            r.pending() == Seq::<Command<C>>::empty(),
    {
        CommandBuffer { ops: Vec::new() }
    }

    pub fn spawn(&mut self, bundle: Vec<(u64, C)>)
        requires
            ids_distinct(bundle@),
        ensures
            final(self).pending() == old(self).pending().push(Command::Spawn(bundle)),
    {
        self.ops.push(Command::Spawn(bundle));
    }

    pub fn despawn(&mut self, e: Entity)
        ensures
            final(self).pending() == old(self).pending().push(Command::Despawn(e)),
    {
        self.ops.push(Command::Despawn(e));
    }

    /// Records arbitrary deferred work on the world.
    pub fn run(&mut self, op: Box<dyn WorldOp<C>>)
        ensures
            final(self).pending() == old(self).pending().push(Command::Run(op)),
    {
        self.ops.push(Command::Run(op));
    }

    pub fn is_empty(&self) -> (r: bool)
        ensures
            r == (self.pending().len() == 0),
    {
        self.ops.len() == 0
    }

    /// Applies every recorded command to `world` in recording order, then
    /// forgets them. A spawn on a world whose slot indices are used up is
    /// dropped.
    pub fn apply(&mut self, world: &mut World<C>)
        requires
            old(self).wf(),
            old(world).wf(),
        ensures
            final(self).pending() == Seq::<Command<C>>::empty(),
            final(world).wf(),
            exists|worlds: Seq<World<C>>|
                #[trigger] command_trace(worlds, old(self).pending()) && worlds[0] == *old(world)
                    && worlds.last() == *final(world),
            structural_only(old(self).pending()) ==> {
                &&& final(world).res() == old(world).res()
                &&& final(world).signatures().len() >= old(world).signatures().len()
                &&& forall|a: int| 0 <= a < old(world).signatures().len() ==> #[trigger] final(world).signatures()[a] == old(world).signatures()[a]
            },
    {
        let ghost all = self.ops@;
        let mut ops: Vec<Command<C>> = Vec::new();
        std::mem::swap(&mut ops, &mut self.ops);
        let ghost mut worlds: Seq<World<C>> = seq![*world];
        let ghost mut done: int = 0;
        while ops.len() > 0
            invariant
                world.wf(),
                structural_only(all) ==> world.res() == old(world).res(),
                0 <= done <= all.len(),
                ops@ == all.subrange(done, all.len() as int),
                worlds.len() == done + 1,
                worlds[0] == *old(world),
                worlds.last() == *world,
                forall|i: int| 0 <= i < done ==> #[trigger] command_step(worlds[i], worlds[i + 1], all[i]),
                forall|i: int| 0 <= i < all.len() ==> match #[trigger] all[i] {
                    Command::Spawn(b) => ids_distinct(b@),
                    _ => true,
                },
                self.ops@ == Seq::<Command<C>>::empty(),
                structural_only(all) ==> world.signatures().len() >= old(world).signatures().len(),
                structural_only(all) ==> forall|a: int| 0 <= a < old(world).signatures().len() ==> #[trigger] world.signatures()[a] == old(world).signatures()[a],
            decreases ops@.len(),
        {
            let op = ops.remove(0);
            assert(op == all[done]);
            match op {
                Command::Spawn(b) => {
                    if world.can_spawn() {
                        world.spawn(b);
                    }
                },
                Command::Despawn(e) => {
                    world.despawn(e);
                },
                Command::Run(f) => {
                    proof {
                        assert(all[done] matches Command::Run(_));
                    }
                    f.run_on(world);
                },
            }
            proof {
                worlds = worlds.push(*world);
                assert(command_step(worlds[done], worlds[done + 1], all[done]));
                assert forall|i: int| 0 <= i < done + 1 implies #[trigger] command_step(worlds[i], worlds[i + 1], all[i]) by {
                    if i < done {
                        assert(worlds[i] == worlds.drop_last()[i]);
                    }
                }
                done = done + 1;
                assert(ops@ =~= all.subrange(done, all.len() as int));
            }
        }
        proof {
            assert(done == all.len());
            assert(command_trace(worlds, all));
        }
    }
}

// ---------------------------------------------------------------- histories

/// One step of a history of world calls: `Some(c)` is a spawn or despawn,
/// called directly or replayed by an applied buffer; `None` is any call that
/// keeps the entities and their slots (`insert`, `remove`, `get_mut`, the
/// resource calls).
pub open spec fn history_step<C>(before: World<C>, after: World<C>, op: Option<Command<C>>) -> bool {
    match op {
        Some(c) => command_step(before, after, c),
        None => after.wf() && before.keeps_entities(after),
    }
}

/// `worlds[i + 1]` is `worlds[i]` after `ops[i]`.
pub open spec fn world_history<C>(worlds: Seq<World<C>>, ops: Seq<Option<Command<C>>>) -> bool {
    &&& worlds.len() == ops.len() + 1
    &&& worlds[0].wf()
    &&& forall|i: int| 0 <= i < ops.len() ==> #[trigger] history_step(worlds[i], worlds[i + 1], ops[i])
}

/// Whether `e` is alive after the first `n` steps, read off the history: a
/// spawn brings to life the handle it returns (`next_entity()` of the world
/// it ran on), a despawn kills its handle, a keeping call changes nothing;
/// after a recorded operation, whatever it left.
pub open spec fn alive_after<C>(worlds: Seq<World<C>>, ops: Seq<Option<Command<C>>>, n: int, e: Entity) -> bool
    decreases n,
{
    if n <= 0 {
        worlds[0]@.contains_key(e)
    } else {
        match ops[n - 1] {
            Some(Command::Spawn(_)) => (worlds[n - 1].can_alloc() && worlds[n - 1].next_entity() == e)
                || alive_after(worlds, ops, n - 1, e),
            Some(Command::Despawn(x)) => x != e && alive_after(worlds, ops, n - 1, e),
            Some(Command::Run(_)) => worlds[n]@.contains_key(e),
            None => alive_after(worlds, ops, n - 1, e),
        }
    }
}

/// Number of spawns among the first `n` steps that created an entity (all
/// of them while slot indices last).
pub open spec fn spawns_in<C>(worlds: Seq<World<C>>, ops: Seq<Option<Command<C>>>, n: int) -> int
    decreases n,
{
    if n <= 0 {
        0
    } else {
        spawns_in(worlds, ops, n - 1) + match ops[n - 1] {
            Some(Command::Spawn(_)) => if worlds[n - 1].can_alloc() { 1int } else { 0int },
            _ => 0int,
        }
    }
}

/// No step of the history is a recorded operation.
pub open spec fn no_recorded_ops<C>(ops: Seq<Option<Command<C>>>) -> bool {
    forall|i: int| 0 <= i < ops.len() ==> !(#[trigger] ops[i] matches Some(Command::Run(_)))
}

/// Number of despawns among the first `n` steps that found their entity
/// alive (those that returned `true`).
pub open spec fn kills_in<C>(worlds: Seq<World<C>>, ops: Seq<Option<Command<C>>>, n: int) -> int
    decreases n,
{
    if n <= 0 {
        0
    } else {
        kills_in(worlds, ops, n - 1) + match ops[n - 1] {
            Some(Command::Despawn(x)) => if worlds[n - 1]@.contains_key(x) { 1int } else { 0int },
            _ => 0int,
        }
    }
}

/// No despawn in the history wraps a slot's generation around.
pub open spec fn no_generation_wrap<C>(worlds: Seq<World<C>>, ops: Seq<Option<Command<C>>>) -> bool {
    forall|i: int| 0 <= i < ops.len() ==> match #[trigger] ops[i] {
        Some(Command::Despawn(x)) => worlds[i]@.contains_key(x) ==> x.gen < u32::MAX,
        _ => true,
    }
}

proof fn lemma_history_wf<C>(worlds: Seq<World<C>>, ops: Seq<Option<Command<C>>>, n: int)
    requires
        world_history(worlds, ops),
        0 <= n <= ops.len(),
    ensures
        worlds[n].wf(),
{
    if n > 0 {
        assert(history_step(worlds[n - 1], worlds[n - 1 + 1], ops[n - 1]));
    }
}

proof fn lemma_alive_prefix<C>(worlds: Seq<World<C>>, ops: Seq<Option<Command<C>>>, n: int, e: Entity)
    requires
        world_history(worlds, ops),
        0 <= n <= ops.len(),
    ensures
        worlds[n]@.contains_key(e) == alive_after(worlds, ops, n, e),
    decreases n,
{
    if n > 0 {
        lemma_alive_prefix(worlds, ops, n - 1, e);
        assert(history_step(worlds[n - 1], worlds[n - 1 + 1], ops[n - 1]));
        if ops[n - 1] is None {
            assert(worlds[n]@.dom().contains(e) == worlds[n - 1]@.dom().contains(e));
        }
    }
}

/// Law (liveness follows the history): after any sequence of spawns,
/// despawns and keeping calls an entity is alive exactly when it was alive
/// at the start or was returned by a spawn, and no despawn of it came later.
pub proof fn law_alive_follows_history<C>(worlds: Seq<World<C>>, ops: Seq<Option<Command<C>>>, e: Entity)
    requires
        world_history(worlds, ops),
    ensures
        worlds.last()@.contains_key(e) == alive_after(worlds, ops, ops.len() as int, e),
{
    lemma_alive_prefix(worlds, ops, ops.len() as int, e);
}

proof fn lemma_count_prefix<C>(worlds: Seq<World<C>>, ops: Seq<Option<Command<C>>>, n: int)
    requires
        world_history(worlds, ops),
        no_recorded_ops(ops),
        0 <= n <= ops.len(),
    ensures
        worlds[n]@.dom().finite(),
        worlds[n]@.len() == worlds[0]@.len() + spawns_in(worlds, ops, n) - kills_in(worlds, ops, n),
    decreases n,
{
    lemma_history_wf(worlds, ops, n);
    worlds[n].lemma_live_count();
    if n > 0 {
        lemma_count_prefix(worlds, ops, n - 1);
        let pre = worlds[n - 1];
        let post = worlds[n];
        assert(history_step(worlds[n - 1], worlds[n - 1 + 1], ops[n - 1]));
        assert(!(ops[n - 1] matches Some(Command::Run(_))));
        match ops[n - 1] {
            Some(Command::Spawn(b)) => {
                if pre.can_alloc() {
                    assert(post@.dom() =~= pre@.dom().insert(pre.next_entity()));
                }
            },
            Some(Command::Despawn(x)) => {
                assert(post@.dom() =~= pre@.dom().remove(x));
            },
            _ => {},
        }
    }
}

/// Law (entity count follows the history): after any sequence of spawns,
/// despawns and keeping calls the number of live entities is the number at
/// the start, plus the spawns, minus the despawns that returned `true`.
pub proof fn law_entity_count_follows_history<C>(worlds: Seq<World<C>>, ops: Seq<Option<Command<C>>>)
    requires
        world_history(worlds, ops),
        no_recorded_ops(ops),
    ensures
        worlds.last()@.len() == worlds[0]@.len() + spawns_in(worlds, ops, ops.len() as int) - kills_in(worlds, ops, ops.len() as int),
{
    lemma_count_prefix(worlds, ops, ops.len() as int);
}

proof fn lemma_generation_stays_ahead<C>(worlds: Seq<World<C>>, ops: Seq<Option<Command<C>>>, k: int, e: Entity, j: int)
    requires
        world_history(worlds, ops),
        no_generation_wrap(worlds, ops),
        no_recorded_ops(ops),
        0 <= k < j <= ops.len(),
        ops[k] == Some(Command::<C>::Despawn(e)),
        worlds[k]@.contains_key(e),
    ensures
        (e.index as int) < worlds[j].slots(),
        worlds[j].generation(e.index as int) > e.gen,
    decreases j,
{
    lemma_history_wf(worlds, ops, j - 1);
    assert(history_step(worlds[j - 1], worlds[j - 1 + 1], ops[j - 1]));
    if j == k + 1 {
        worlds[k].law_live_handle_has_current_generation(e);
        assert(no_generation_wrap(worlds, ops) ==> (worlds[k]@.contains_key(e) ==> e.gen < u32::MAX)) by {
            assert(match ops[k] {
                Some(Command::Despawn(x)) => worlds[k]@.contains_key(x) ==> x.gen < u32::MAX,
                _ => true,
            });
        }
    } else {
        lemma_generation_stays_ahead(worlds, ops, k, e, j - 1);
        let pre = worlds[j - 1];
        let post = worlds[j];
        let i = e.index as int;
        assert(!(ops[j - 1] matches Some(Command::Run(_))));
        match ops[j - 1] {
            Some(Command::Spawn(b)) => {
                assert(post.generation(i) == pre.generation(i));
            },
            Some(Command::Despawn(x)) => {
                if pre@.contains_key(x) {
                    pre.law_live_handle_has_current_generation(x);
                    assert(match ops[j - 1] {
                        Some(Command::Despawn(y)) => worlds[j - 1]@.contains_key(y) ==> y.gen < u32::MAX,
                        _ => true,
                    });
                    if x.index as int != i {
                        assert(post.generation(i) == pre.generation(i));
                    }
                } else {
                    assert(post.generation(i) == pre.generation(i));
                }
            },
            Some(Command::Run(_)) => {},
            None => {
                assert(post.generation(i) == pre.generation(i));
            },
        }
    }
}

/// Law (stale handles stay dead): once a despawn finds its entity alive,
/// that handle is never alive again later in a history of spawns, despawns
/// and keeping calls, as long as no despawn in it wraps a slot's generation
/// around.
pub proof fn law_despawned_stays_dead<C>(worlds: Seq<World<C>>, ops: Seq<Option<Command<C>>>, k: int, e: Entity, j: int)
    requires
        world_history(worlds, ops),
        no_generation_wrap(worlds, ops),
        no_recorded_ops(ops),
        0 <= k < j <= ops.len(),
        ops[k] == Some(Command::<C>::Despawn(e)),
        worlds[k]@.contains_key(e),
    ensures
        !worlds[j]@.contains_key(e),
        worlds[j].is_stale(e),
{
    lemma_generation_stays_ahead(worlds, ops, k, e, j);
    lemma_history_wf(worlds, ops, j);
    if worlds[j]@.contains_key(e) {
        worlds[j].law_live_handle_has_current_generation(e);
    }
}

/// Law (reuse order): freed slots are reused most recently freed first.
/// Despawning live `a` and then live `b`, the next spawn returns `b`'s slot
/// and the one after it `a`'s, each at the slot's next generation.
pub proof fn law_slots_reused_last_freed_first<C>(
    w0: World<C>,
    w1: World<C>,
    w2: World<C>,
    w3: World<C>,
    a: Entity,
    b: Entity,
    bundle: Seq<(u64, C)>,
)
    requires
        w0.wf(),
        w0@.contains_key(a),
        w0@.contains_key(b),
        a != b,
        w0.despawn_effect(w1, a),
        w1.despawn_effect(w2, b),
        w2.spawn_effect(w3, bundle),
    ensures
        w2.next_entity() == (Entity { index: b.index, gen: next_generation(b.gen) }),
        w3.next_entity() == (Entity { index: a.index, gen: next_generation(a.gen) }),
{
    w0.law_live_handle_has_current_generation(a);
    w0.law_live_handle_has_current_generation(b);
    assert(w1@.contains_key(b));
    assert(a.index != b.index);
    assert(w2.free_list().len() > 0);
    assert(w2.free_list().drop_last() == w0.free_list().push(a.index));
}

/// Law: the steps of an applied buffer are a history of world calls.
pub proof fn law_applied_buffer_is_history<C>(worlds: Seq<World<C>>, ops: Seq<Command<C>>)
    requires
        command_trace(worlds, ops),
    ensures
        world_history(worlds, ops.map_values(|c: Command<C>| Some(c))),
{
    let m = ops.map_values(|c: Command<C>| Some(c));
    assert forall|i: int| 0 <= i < m.len() implies #[trigger] history_step(worlds[i], worlds[i + 1], m[i]) by {
        assert(command_step(worlds[i], worlds[i + 1], ops[i]));
    }
}

/// One step of a buffer's history: `Some(c)` records `c` (by `spawn` or
/// `despawn`), `None` is an `apply`.
pub open spec fn buffer_step<C>(before: CommandBuffer<C>, after: CommandBuffer<C>, event: Option<Command<C>>) -> bool {
    match event {
        Some(c) => after.pending() == before.pending().push(c),
        None => after.pending() == Seq::<Command<C>>::empty(),
    }
}

/// `buffers[i + 1]` is `buffers[i]` after `events[i]`.
pub open spec fn buffer_history<C>(buffers: Seq<CommandBuffer<C>>, events: Seq<Option<Command<C>>>) -> bool {
    &&& buffers.len() == events.len() + 1
    &&& forall|i: int| 0 <= i < events.len() ==> #[trigger] buffer_step(buffers[i], buffers[i + 1], events[i])
}

/// The commands recorded among the first `n` events since the last apply.
pub open spec fn recorded_since_apply<C>(events: Seq<Option<Command<C>>>, n: int) -> Seq<Command<C>>
    decreases n,
{
    if n <= 0 {
        Seq::empty()
    } else {
        match events[n - 1] {
            Some(c) => recorded_since_apply(events, n - 1).push(c),
            None => Seq::empty(),
        }
    }
}

proof fn lemma_pending_prefix<C>(buffers: Seq<CommandBuffer<C>>, events: Seq<Option<Command<C>>>, n: int)
    requires
        buffer_history(buffers, events),
        buffers[0].pending().len() == 0,
        0 <= n <= events.len(),
    ensures
        buffers[n].pending() == recorded_since_apply(events, n),
    decreases n,
{
    if n > 0 {
        lemma_pending_prefix(buffers, events, n - 1);
        assert(buffer_step(buffers[n - 1], buffers[n - 1 + 1], events[n - 1]));
    }
}

/// Law: a buffer made empty (by `new` or `apply`) holds exactly the commands
/// recorded since, in order; so it is empty exactly when every recording has
/// been followed by an `apply`.
pub proof fn law_pending_is_recorded_since_apply<C>(buffers: Seq<CommandBuffer<C>>, events: Seq<Option<Command<C>>>)
    requires
        buffer_history(buffers, events),
        buffers[0].pending().len() == 0,
    ensures
        buffers.last().pending() == recorded_since_apply(events, events.len() as int),
        buffers.last().pending().len() == 0 <==> forall|j: int|
            0 <= j < events.len() && (#[trigger] events[j]) is Some ==> exists|k: int| j < k < events.len() && events[k] is None,
{
    let n = events.len() as int;
    lemma_pending_prefix(buffers, events, n);
    if n > 0 {
        if events[n - 1] is None {
            assert forall|j: int| 0 <= j < n && (#[trigger] events[j]) is Some implies exists|k: int| j < k < n && events[k] is None by {
                assert(j < n - 1 && events[n - 1] is None);
            }
        } else {
            let all_applied = forall|j: int|
                0 <= j < n && (#[trigger] events[j]) is Some ==> exists|k: int| j < k < n && events[k] is None;
            assert(!all_applied) by {
                if all_applied {
                    assert(events[n - 1] is Some);
                }
            }
        }
    }
}
} // verus!
