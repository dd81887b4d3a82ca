//! Deriving per-seed integer keys from hashable values.
use std::collections::hash_map::DefaultHasher;
use std::hash::Hasher;
use vstd::prelude::*;
use vstd::std_specs::hash::DefaultHasherAdditionalSpecFns;
use vstd::string::StringSliceAdditionalSpecFns;

verus! {

/// A value that can be fed to the filters: it writes a canonical byte form of
/// itself into a hasher, the same bytes on every call.
pub trait HashKey {
    /// The bytes that identify this value.
    spec fn key_bytes(&self) -> Seq<u8>;

    /// Writes `key_bytes()` into `h` as one write.
    fn write_key(&self, h: &mut DefaultHasher)
        ensures
            final(h)@ == old(h)@.push(self.key_bytes()),
    ;
}

/// Little-endian bytes of a `u32`.
pub open spec fn u32_bytes(x: u32) -> Seq<u8> {
    seq![x as u8, (x >> 8u32) as u8, (x >> 16u32) as u8, (x >> 24u32) as u8]
}

/// Little-endian bytes of a `u64`.
pub open spec fn u64_bytes(x: u64) -> Seq<u8> {
    seq![
        x as u8,
        (x >> 8u64) as u8,
        (x >> 16u64) as u8,
        (x >> 24u64) as u8,
        (x >> 32u64) as u8,
        (x >> 40u64) as u8,
        (x >> 48u64) as u8,
        (x >> 56u64) as u8,
    ]
}

fn write_u32_bytes(x: u32, h: &mut DefaultHasher)
    ensures
        final(h)@ == old(h)@.push(u32_bytes(x)),
{
    let b: [u8; 4] = [x as u8, (x >> 8u32) as u8, (x >> 16u32) as u8, (x >> 24u32) as u8];
    h.write(&b);
    proof {
        assert(b@ =~= u32_bytes(x));
    }
}

fn write_u64_bytes(x: u64, h: &mut DefaultHasher)
    ensures
        final(h)@ == old(h)@.push(u64_bytes(x)),
{
    let b: [u8; 8] = [
        x as u8,
        (x >> 8u64) as u8,
        (x >> 16u64) as u8,
        (x >> 24u64) as u8,
        (x >> 32u64) as u8,
        (x >> 40u64) as u8,
        (x >> 48u64) as u8,
        (x >> 56u64) as u8,
    ];
    h.write(&b);
    proof {
        assert(b@ =~= u64_bytes(x));
    }
}

impl HashKey for u32 {
    open spec fn key_bytes(&self) -> Seq<u8> {
        u32_bytes(*self)
    }

    fn write_key(&self, h: &mut DefaultHasher) {
        write_u32_bytes(*self, h);
    }
}

impl HashKey for i32 {
    open spec fn key_bytes(&self) -> Seq<u8> {
        u32_bytes(*self as u32)
    }

    fn write_key(&self, h: &mut DefaultHasher) {
        write_u32_bytes(*self as u32, h);
    }
}

impl HashKey for u64 {
    open spec fn key_bytes(&self) -> Seq<u8> {
        u64_bytes(*self)
    }

    fn write_key(&self, h: &mut DefaultHasher) {
        write_u64_bytes(*self, h);
    }
}

impl HashKey for i64 {
    open spec fn key_bytes(&self) -> Seq<u8> {
        u64_bytes(*self as u64)
    }

    fn write_key(&self, h: &mut DefaultHasher) {
        write_u64_bytes(*self as u64, h);
    }
}

impl HashKey for char {
    open spec fn key_bytes(&self) -> Seq<u8> {
        u32_bytes(*self as u32)
    }

    fn write_key(&self, h: &mut DefaultHasher) {
        write_u32_bytes(*self as u32, h);
    }
}

impl HashKey for str {
    open spec fn key_bytes(&self) -> Seq<u8> {
        self.spec_bytes()
    }

    fn write_key(&self, h: &mut DefaultHasher) {
        h.write(self.as_bytes());
    }
}

impl HashKey for String {
    open spec fn key_bytes(&self) -> Seq<u8> {
        vstd::utf8::encode_utf8(self@)
    }

    fn write_key(&self, h: &mut DefaultHasher) {
        h.write(self.as_str().as_bytes());
    }
}

/// The 64-bit hash of a value's bytes under seed `seed`.
pub open spec fn seeded_hash(bytes: Seq<u8>, seed: u32) -> u64 {
    DefaultHasher::spec_finish(seq![bytes, u32_bytes(seed)])
}

/// The key that seed `i` gives a value in a set of size `m`.
pub open spec fn slot(bytes: Seq<u8>, i: int, m: int) -> u64 {
    (seeded_hash(bytes, i as u32) as int % m) as u64
}

/// Hashes `value` together with `seed`: equal values and seeds give equal hashes.
pub fn get_hash<T: HashKey + ?Sized>(value: &T, seed: u32) -> (r: u64)
    ensures
        r == seeded_hash(value.key_bytes(), seed),
{
    let mut s = DefaultHasher::new();
    value.write_key(&mut s);
    write_u32_bytes(seed, &mut s);
    proof {
        assert(s@ =~= seq![value.key_bytes(), u32_bytes(seed)]);
    }
    s.finish()
}

} // verus!
