//! FNV-1a hashing: interned 64-bit keys and order-sensitive world fingerprints.
//!
//! Both the one-shot [`fnv1a64`] and the incremental [`StateHasher`] compute
//! the same function of the bytes fed to them; `lemma_fnv_fold_append` is the
//! fact that makes incremental hashing agree with hashing the concatenation.

use vstd::prelude::*;
use vstd::string::StringSliceAdditionalSpecFns;

verus! {

pub const FNV_OFFSET: u64 = 0xcbf29ce484222325;
pub const FNV_PRIME: u64 = 0x100000001b3;

/// One FNV-1a step: xor the byte in, then multiply by the prime (mod 2^64).
pub open spec fn fnv_step(h: u64, b: u8) -> u64 {
    ((((h ^ (b as u64)) as nat) * (FNV_PRIME as nat)) % 0x1_0000_0000_0000_0000nat) as u64
}

/// FNV-1a state after folding `bytes` into the running state `h`.
pub open spec fn fnv_fold(h: u64, bytes: Seq<u8>) -> u64
    decreases bytes.len(),
{
    if bytes.len() == 0 {
        h
    } else {
        fnv_step(fnv_fold(h, bytes.drop_last()), bytes.last())
    }
}

/// FNV-1a 64 of a byte string.
pub open spec fn spec_fnv1a64(bytes: Seq<u8>) -> u64 {
    fnv_fold(FNV_OFFSET, bytes)
}

/// Little-endian bytes of a `u32`.
pub open spec fn le_bytes_u32(v: u32) -> Seq<u8> {
    seq![
        (v & 0xff) as u8,
        ((v >> 8u32) & 0xff) as u8,
        ((v >> 16u32) & 0xff) as u8,
        ((v >> 24u32) & 0xff) as u8,
    ]
}

/// Little-endian bytes of a `u64`.
pub open spec fn le_bytes_u64(v: u64) -> Seq<u8> {
    le_bytes_u32((v & 0xffff_ffff) as u32) + le_bytes_u32((v >> 32u64) as u32)
}

/// Little-endian bytes of an `i32` (two's complement).
pub open spec fn le_bytes_i32(v: i32) -> Seq<u8> {
    le_bytes_u32(v as u32)
}

/// Folding one more byte is one more FNV step.
pub proof fn lemma_fnv_fold_push(h: u64, s: Seq<u8>, b: u8)
    ensures
        fnv_fold(h, s.push(b)) == fnv_step(fnv_fold(h, s), b),
{
    assert(s.push(b).drop_last() =~= s);
}

/// Folding a concatenation is folding the parts one after the other.
pub proof fn lemma_fnv_fold_append(h: u64, a: Seq<u8>, b: Seq<u8>)
    ensures
        fnv_fold(h, a + b) == fnv_fold(fnv_fold(h, a), b),
    decreases b.len(),
{
    if b.len() == 0 {
        assert(a + b =~= a);
    } else {
        assert((a + b).drop_last() =~= a + b.drop_last());
        assert((a + b).last() == b.last());
        lemma_fnv_fold_append(h, a, b.drop_last());
    }
}

fn fnv_step_exec(h: u64, b: u8) -> (r: u64)
    ensures
        r == fnv_step(h, b),
{
    (h ^ (b as u64)).wrapping_mul(FNV_PRIME)
}

fn fnv_fold_exec(h0: u64, bytes: &[u8]) -> (h: u64)
    ensures
        h == fnv_fold(h0, bytes@),
{
    let mut h: u64 = h0;
    let n = bytes.len();
    let mut i: usize = 0;
    while i < n
        invariant
            n == bytes@.len(),
            i <= n,
            h == fnv_fold(h0, bytes@.take(i as int)),
        decreases n - i,
    {
        assert(bytes@.take(i as int + 1).drop_last() =~= bytes@.take(i as int));
        h = fnv_step_exec(h, bytes[i]);
        i = i + 1;
    }
    assert(bytes@.take(n as int) =~= bytes@);
    h
}

/// FNV-1a 64 of `bytes`.
pub fn fnv1a64(bytes: &[u8]) -> (h: u64)
    ensures
        h == spec_fnv1a64(bytes@),
{
    fnv_fold_exec(FNV_OFFSET, bytes)
}

/// Interned key of a name: FNV-1a 64 of its UTF-8 bytes.
pub open spec fn spec_key64(name: &str) -> u64 {
    spec_fnv1a64(name.spec_bytes())
}

/// Interned key: FNV-1a of a name's UTF-8 bytes.
pub fn key64(name: &str) -> (h: u64)
    ensures
        h == spec_key64(name),
{
    fnv1a64(name.as_bytes())
}

/// Unseeded FNV-1a hasher for engine-internal maps. The state 0 stands for
/// "nothing written yet" and reads as the offset basis.
#[derive(Clone, Copy, Debug)]
pub struct Fnv64Hasher {
    pub state: u64,
}

impl Fnv64Hasher {
    /// The running FNV state this hasher continues from.
    pub open spec fn basis(self) -> u64 {
        if self.state == 0 {
            FNV_OFFSET
        } else {
            self.state
        }
    }

    pub fn new() -> (s: Self)
        ensures
            s.state == 0,
    {
        Fnv64Hasher { state: 0 }
    }

    pub fn finish(&self) -> (h: u64)
        ensures
            h == self.basis(),
    {
        if self.state == 0 {
            FNV_OFFSET
        } else {
            self.state
        }
    }

    pub fn write(&mut self, bytes: &[u8])
        ensures
            final(self).state == fnv_fold(old(self).basis(), bytes@),
    {
        let h0 = if self.state == 0 {
            FNV_OFFSET
        } else {
            self.state
        };
        self.state = fnv_fold_exec(h0, bytes);
    }
}

/// Order-sensitive incremental hasher. Feed sim state in a canonical order to
/// get a bit-exact fingerprint of the world.
#[derive(Clone, Copy, Debug)]
pub struct StateHasher {
    h: u64,
}

impl View for StateHasher {
    type V = u64;

    closed spec fn view(&self) -> u64 {
        self.h
    }
}

impl StateHasher {
    pub fn new() -> (s: Self)
        ensures
            s@ == FNV_OFFSET,
    {
        StateHasher { h: FNV_OFFSET }
    }

    pub fn write_bytes(&mut self, bytes: &[u8])
        ensures
            final(self)@ == fnv_fold(old(self)@, bytes@),
    {
        self.h = fnv_fold_exec(self.h, bytes);
    }

    fn write_byte(&mut self, b: u8)
        ensures
            final(self)@ == fnv_step(old(self)@, b),
    {
        self.h = fnv_step_exec(self.h, b);
    }

    pub fn write_u32(&mut self, v: u32)
        ensures
            final(self)@ == fnv_fold(old(self)@, le_bytes_u32(v)),
    {
        let ghost h0 = self.h;
        let b0 = (v & 0xff) as u8;
        let b1 = ((v >> 8u32) & 0xff) as u8;
        let b2 = ((v >> 16u32) & 0xff) as u8;
        let b3 = ((v >> 24u32) & 0xff) as u8;
        proof {
            assert(v & 0xff < 256 && (v >> 8u32) & 0xff < 256 && (v >> 16u32) & 0xff < 256
                && (v >> 24u32) & 0xff < 256) by (bit_vector);
        }
        let ghost acc: Seq<u8> = Seq::empty();
        assert(fnv_fold(h0, acc) == h0);
        self.write_byte(b0);
        proof { lemma_fnv_fold_push(h0, acc, b0); acc = acc.push(b0); }
        self.write_byte(b1);
        proof { lemma_fnv_fold_push(h0, acc, b1); acc = acc.push(b1); }
        self.write_byte(b2);
        proof { lemma_fnv_fold_push(h0, acc, b2); acc = acc.push(b2); }
        self.write_byte(b3);
        proof {
            lemma_fnv_fold_push(h0, acc, b3);
            acc = acc.push(b3);
            assert(acc =~= le_bytes_u32(v));
        }
    }

    pub fn write_u64(&mut self, v: u64)
        ensures
            final(self)@ == fnv_fold(old(self)@, le_bytes_u64(v)),
    {
        let ghost h0 = self.h;
        let lo = (v & 0xffff_ffff) as u32;
        let hi = (v >> 32u64) as u32;
        self.write_u32(lo);
        self.write_u32(hi);
        proof {
            lemma_fnv_fold_append(h0, le_bytes_u32(lo), le_bytes_u32(hi));
        }
    }

    pub fn write_i32(&mut self, v: i32)
        ensures
            final(self)@ == fnv_fold(old(self)@, le_bytes_i32(v)),
    {
        self.write_u32(v as u32);
    }

    pub fn finish(&self) -> (h: u64)
        ensures
            h == self@,
    {
        self.h
    }
}

/// Law: feeding a hasher two byte strings one after the other gives the
/// same fingerprint as hashing their concatenation in one go.
pub proof fn law_incremental_matches_oneshot(a: Seq<u8>, b: Seq<u8>)
    ensures
        fnv_fold(fnv_fold(FNV_OFFSET, a), b) == spec_fnv1a64(a + b),
{
    lemma_fnv_fold_append(FNV_OFFSET, a, b);
}

/// Byte-wise equality of two slices.
pub fn bytes_eq(a: &[u8], b: &[u8]) -> (r: bool)
    ensures
        r == (a@ == b@),
{
    if a.len() != b.len() {
        return false;
    }
    let n = a.len();
    let mut i: usize = 0;
    while i < n
        invariant
            n == a@.len(),
            n == b@.len(),
            i <= n,
            forall|k: int| 0 <= k < i ==> a@[k] == b@[k],
        decreases n - i,
    {
        if a[i] != b[i] {
            return false;
        }
        i = i + 1;
    }
    assert(a@ =~= b@);
    true
}

/// String equality (same characters).
pub fn str_eq(a: &str, b: &str) -> (r: bool)
    ensures
        r == (a@ == b@),
{
    broadcast use vstd::utf8::encode_utf8_decode_utf8;
    let r = bytes_eq(a.as_bytes(), b.as_bytes());
    proof {
        if a.spec_bytes() == b.spec_bytes() {
            assert(vstd::utf8::decode_utf8(vstd::utf8::encode_utf8(a@)) == a@);
            assert(vstd::utf8::decode_utf8(vstd::utf8::encode_utf8(b@)) == b@);
        }
    }
    r
}

} // verus!
